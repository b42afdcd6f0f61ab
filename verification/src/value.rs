//! Column values, column types and the comparison of two values of one column.
//!
//! Two values are compared within a *family* of variants: the exact numbers (`tinyint` to
//! `bigint`, `decimal` and `money`) form one family, the two floating-point types another, and
//! every other variant is a family of its own. Inside a family the order is the one of the sort keys
//! of [`ValueModel::sort_key`].

use vstd::prelude::*;

use crate::error::SqlError;

verus! {

/// A character string value.
#[derive(Debug, Clone, PartialEq, Eq)]
pub struct SqlString {
    /// The characters.
    pub text: String,
}

/// An exact decimal number: `whole + fraction / 10^38`, `whole` rounded towards minus infinity.
#[derive(Debug, Clone, Copy, PartialEq, Eq, Structural)]
pub struct Decimal {
    /// The integer part, rounded down.
    pub whole: i128,
    /// What is left above `whole`, in units of `10^-38`: 0 to `10^38 - 1`.
    pub fraction: i128,
}

/// A point in time with the offset it was written with; two of them are compared by the point.
#[derive(Debug, Clone, Copy, PartialEq, Eq, Structural)]
pub struct OffsetInstant {
    /// The point in time, in ticks of 100 ns, in UTC.
    pub ticks: i64,
    /// The offset from UTC the value was written with, in minutes.
    pub offset: i16,
}

/// The value of one column of one row.
///
/// A floating-point value is held by the integer that orders it: the position of its
/// double-precision form in the increasing enumeration of the doubles.
#[derive(Debug, Clone, PartialEq, Eq)]
pub enum Value {
    /// The absent value.
    Null,
    /// `bit`.
    Bit(bool),
    /// `tinyint`, 0 to 255.
    I8(u8),
    /// `smallint`.
    I16(i16),
    /// `int`.
    I32(i32),
    /// `bigint`.
    I64(i64),
    /// `decimal` and `numeric`.
    Decimal(Decimal),
    /// `real`, by its position among the doubles.
    F32(i64),
    /// `float`, by its position among the doubles.
    F64(i64),
    /// `money` and `smallmoney`, in ten-thousandths.
    Money(i64),
    /// The character types.
    String(SqlString),
    /// The binary types.
    Bytes(Vec<u8>),
    /// `date`, in days.
    Date(i32),
    /// `time`, in ticks of 100 ns since midnight.
    Time(u64),
    /// `datetime` and `smalldatetime`, in ticks.
    DateTime(i64),
    /// `datetime2`, in ticks of 100 ns.
    DateTime2(i64),
    /// `datetimeoffset`.
    DateTimeOffset(OffsetInstant),
    /// `uniqueidentifier`, its bytes read in sort order.
    Guid(u128),
}

/// What a [`Value`] stands for: the same variants over mathematical sequences.
pub enum ValueModel {
    /// The absent value.
    Null,
    /// `bit`.
    Bit(bool),
    /// `tinyint`.
    I8(u8),
    /// `smallint`.
    I16(i16),
    /// `int`.
    I32(i32),
    /// `bigint`.
    I64(i64),
    /// `decimal` and `numeric`.
    Decimal(Decimal),
    /// `real`.
    F32(i64),
    /// `float`.
    F64(i64),
    /// `money` and `smallmoney`.
    Money(i64),
    /// The character types.
    String(Seq<char>),
    /// The binary types.
    Bytes(Seq<u8>),
    /// `date`.
    Date(i32),
    /// `time`.
    Time(u64),
    /// `datetime` and `smalldatetime`.
    DateTime(i64),
    /// `datetime2`.
    DateTime2(i64),
    /// `datetimeoffset`.
    DateTimeOffset(OffsetInstant),
    /// `uniqueidentifier`.
    Guid(u128),
}

impl View for Value {
    type V = ValueModel;

    open spec fn view(&self) -> ValueModel {
        match *self {
            Value::Null => ValueModel::Null,
            Value::Bit(x) => ValueModel::Bit(x),
            Value::I8(x) => ValueModel::I8(x),
            Value::I16(x) => ValueModel::I16(x),
            Value::I32(x) => ValueModel::I32(x),
            Value::I64(x) => ValueModel::I64(x),
            Value::Decimal(x) => ValueModel::Decimal(x),
            Value::F32(x) => ValueModel::F32(x),
            Value::F64(x) => ValueModel::F64(x),
            Value::Money(x) => ValueModel::Money(x),
            Value::String(s) => ValueModel::String(s.text@),
            Value::Bytes(b) => ValueModel::Bytes(b@),
            Value::Date(x) => ValueModel::Date(x),
            Value::Time(x) => ValueModel::Time(x),
            Value::DateTime(x) => ValueModel::DateTime(x),
            Value::DateTime2(x) => ValueModel::DateTime2(x),
            Value::DateTimeOffset(x) => ValueModel::DateTimeOffset(x),
            Value::Guid(x) => ValueModel::Guid(x),
        }
    }
}

impl DeepView for Value {
    type V = ValueModel;

    open spec fn deep_view(&self) -> ValueModel {
        self@
    }
}

/// How two character strings compare.
#[derive(Debug, Clone, Copy, PartialEq, Eq, Structural)]
pub enum Collation {
    /// The letters `A` to `Z` equal `a` to `z`.
    CaseInsensitive,
    /// Two characters are equal when they are the same.
    CaseSensitive,
}

impl Collation {
    /// The collation of a column that names none.
    pub const DEFAULT: Collation = Collation::CaseInsensitive;
}

/// Declared length of a character or binary type.
#[derive(Debug, Clone, Copy, PartialEq, Eq, Structural)]
pub enum Len {
    /// `n` characters or bytes at most.
    Fixed(u16),
    /// `max`: no declared length.
    Max,
}

/// Declared type of a column.
#[derive(Debug, Clone, Copy, PartialEq, Eq, Structural)]
pub enum SqlType {
    /// `bit`
    Bit,
    /// `tinyint`
    TinyInt,
    /// `smallint`
    SmallInt,
    /// `int`
    Int,
    /// `bigint`
    BigInt,
    /// `real`
    Real,
    /// `float`
    Float,
    /// `money`
    Money,
    /// `smallmoney`
    SmallMoney,
    /// `decimal(precision, scale)`
    Decimal {
        /// Total number of digits.
        precision: u8,
        /// Digits after the point.
        scale: u8,
    },
    /// `numeric(precision, scale)`
    Numeric {
        /// Total number of digits.
        precision: u8,
        /// Digits after the point.
        scale: u8,
    },
    /// `char(n)`
    Char(Len),
    /// `varchar(n)`
    VarChar(Len),
    /// `nchar(n)`
    NChar(Len),
    /// `nvarchar(n)`
    NVarChar(Len),
    /// `binary(n)`
    Binary(Len),
    /// `varbinary(n)`
    VarBinary(Len),
    /// `date`
    Date,
    /// `time(scale)`
    Time(u8),
    /// `datetime`
    DateTime,
    /// `smalldatetime`
    SmallDateTime,
    /// `datetime2(scale)`
    DateTime2(u8),
    /// `datetimeoffset(scale)`
    DateTimeOffset(u8),
    /// `uniqueidentifier`
    UniqueIdentifier,
}

impl SqlType {
    /// Whether the type holds exact numbers: the integers, `decimal`, `numeric` and the two
    /// money types.
    pub fn is_exact_numeric(&self) -> (r: bool)
        ensures
            r == (*self is TinyInt || *self is SmallInt || *self is Int || *self is BigInt
                || *self is Decimal || *self is Numeric || *self is Money || *self is SmallMoney),
    {
        match self {
            SqlType::TinyInt | SqlType::SmallInt | SqlType::Int | SqlType::BigInt => true,
            SqlType::Decimal { .. } | SqlType::Numeric { .. } => true,
            SqlType::Money | SqlType::SmallMoney => true,
            _ => false,
        }
    }

    /// Whether the type holds character strings.
    pub fn is_string(&self) -> (r: bool)
        ensures
            r == (*self is Char || *self is VarChar || *self is NChar || *self is NVarChar),
    {
        match self {
            SqlType::Char(_) | SqlType::VarChar(_) => true,
            SqlType::NChar(_) | SqlType::NVarChar(_) => true,
            _ => false,
        }
    }
}

/// Declared type of a column, whether it takes `NULL`, and its collation if it names one.
#[derive(Debug, Clone, Copy, PartialEq, Eq, Structural)]
pub struct TypeInfo {
    /// The type.
    pub ty: SqlType,
    /// Whether the column takes `NULL`.
    pub nullable: bool,
    /// The collation of the column, `None` for the default one.
    pub collation: Option<Collation>,
}

impl TypeInfo {
    /// A column of type `ty` that names no collation.
    pub fn new(ty: SqlType, nullable: bool) -> (r: Self)
        ensures
            r == (TypeInfo { ty, nullable, collation: None }),
    {
        TypeInfo { ty, nullable, collation: None }
    }
}

/// Outcome of the comparison of two values or of two keys.
#[derive(Debug, Clone, Copy, PartialEq, Eq, Structural)]
pub enum Relation {
    /// The first one comes before the second.
    Less,
    /// The two are equal.
    Equal,
    /// The first one comes after the second.
    Greater,
}

impl Relation {
    /// The same comparison with the two sides swapped.
    pub open spec fn flipped(self) -> Relation {
        match self {
            Relation::Less => Relation::Greater,
            Relation::Equal => Relation::Equal,
            Relation::Greater => Relation::Less,
        }
    }

    /// The same comparison with the two sides swapped.
    pub fn reverse(self) -> (r: Relation)
        ensures
            r == self.flipped(),
    {
        match self {
            Relation::Less => Relation::Greater,
            Relation::Equal => Relation::Equal,
            Relation::Greater => Relation::Less,
        }
    }
}

/// The order of two integers.
pub open spec fn int_relation(a: int, b: int) -> Relation {
    if a < b {
        Relation::Less
    } else if a == b {
        Relation::Equal
    } else {
        Relation::Greater
    }
}

/// The lexicographic order of two sequences of integers, from position `i` on.
pub open spec fn lex_from(a: Seq<int>, b: Seq<int>, i: int) -> Relation
    decreases a.len() - i,
{
    if i < 0 || (i >= a.len() && i >= b.len()) {
        Relation::Equal
    } else if i >= a.len() {
        Relation::Less
    } else if i >= b.len() {
        Relation::Greater
    } else if a[i] != b[i] {
        int_relation(a[i], b[i])
    } else {
        lex_from(a, b, i + 1)
    }
}

/// The lexicographic order of two sequences of integers: a proper prefix comes first.
pub open spec fn lex(a: Seq<int>, b: Seq<int>) -> Relation {
    lex_from(a, b, 0)
}

/// The letter a case-insensitive collation compares in place of `c`: `A` to `Z` in lower case.
pub open spec fn fold_char(c: char) -> int {
    if 'A' <= c && c <= 'Z' {
        c as u32 + 32
    } else {
        c as u32 as int
    }
}

/// What a collation compares of one character.
pub open spec fn char_weight(c: char, collation: Collation) -> int {
    match collation {
        Collation::CaseInsensitive => fold_char(c),
        Collation::CaseSensitive => c as u32 as int,
    }
}

/// The number of characters of `s` once the trailing spaces are left out.
pub open spec fn trimmed_len(s: Seq<char>) -> nat
    decreases s.len(),
{
    if s.len() > 0 && s.last() == ' ' {
        trimmed_len(s.drop_last())
    } else {
        s.len()
    }
}

impl ValueModel {
    /// The family of the value: values of two families are not compared.
    pub open spec fn family(self) -> int {
        match self {
            ValueModel::Null => 0,
            ValueModel::Bit(_) => 1,
            ValueModel::I8(_) | ValueModel::I16(_) | ValueModel::I32(_) | ValueModel::I64(_) => 2,
            ValueModel::Decimal(_) | ValueModel::Money(_) => 2,
            ValueModel::F32(_) | ValueModel::F64(_) => 3,
            ValueModel::String(_) => 5,
            ValueModel::Bytes(_) => 6,
            ValueModel::Date(_) => 7,
            ValueModel::Time(_) => 8,
            ValueModel::DateTime(_) => 9,
            ValueModel::DateTime2(_) => 10,
            ValueModel::DateTimeOffset(_) => 11,
            ValueModel::Guid(_) => 12,
        }
    }

    /// What orders the value inside its family: the number itself, the integer part then the
    /// fraction of an exact number, the weights of the characters without the trailing spaces,
    /// the bytes.
    pub open spec fn content_key(self, collation: Collation) -> Seq<int> {
        match self {
            ValueModel::Null => seq![],
            ValueModel::Bit(x) => seq![if x { 1int } else { 0int }],
            ValueModel::I8(x) => seq![x as int, 0],
            ValueModel::I16(x) => seq![x as int, 0],
            ValueModel::I32(x) => seq![x as int, 0],
            ValueModel::I64(x) => seq![x as int, 0],
            ValueModel::Decimal(x) => seq![x.whole as int, x.fraction as int],
            ValueModel::F32(x) => seq![x as int],
            ValueModel::F64(x) => seq![x as int],
            ValueModel::Money(x) => seq![
                x as int / 10_000,
                (x as int % 10_000) * 10_000_000_000_000_000_000_000_000_000_000_000,
            ],
            ValueModel::String(s) => Seq::new(trimmed_len(s), |i: int| char_weight(s[i], collation)),
            ValueModel::Bytes(b) => Seq::new(b.len(), |i: int| b[i] as int),
            ValueModel::Date(x) => seq![x as int],
            ValueModel::Time(x) => seq![x as int],
            ValueModel::DateTime(x) => seq![x as int],
            ValueModel::DateTime2(x) => seq![x as int],
            ValueModel::DateTimeOffset(x) => seq![x.ticks as int],
            ValueModel::Guid(x) => seq![x as int / 0x1_0000_0000_0000_0000, x as int % 0x1_0000_0000_0000_0000],
        }
    }

    /// The family then the content: what orders any two values, `NULL` first.
    pub open spec fn sort_key(self, collation: Collation) -> Seq<int> {
        seq![self.family()] + self.content_key(collation)
    }

    /// Whether a key may hold both values in one column: one of them is `NULL` or both belong
    /// to one family.
    pub open spec fn comparable(self, other: ValueModel) -> bool {
        self is Null || other is Null || self.family() == other.family()
    }
}

/// The order of two values of one column, `NULL` before anything else.
pub open spec fn value_relation(a: ValueModel, b: ValueModel, collation: Collation) -> Relation {
    lex(a.sort_key(collation), b.sort_key(collation))
}

/// Swapping the two sides of a lexicographic comparison flips it.
proof fn lemma_lex_flips(a: Seq<int>, b: Seq<int>, i: int)
    requires
        0 <= i,
    ensures
        lex_from(b, a, i) == lex_from(a, b, i).flipped(),
    decreases a.len() - i,
{
    if i < a.len() && i < b.len() && a[i] == b[i] {
        lemma_lex_flips(a, b, i + 1);
    }
}

/// The lexicographic order is transitive.
proof fn lemma_lex_transitive(a: Seq<int>, b: Seq<int>, c: Seq<int>, i: int)
    requires
        0 <= i,
        lex_from(a, b, i) != Relation::Greater,
        lex_from(b, c, i) != Relation::Greater,
    ensures
        lex_from(a, c, i) != Relation::Greater,
        lex_from(a, b, i) == Relation::Less ==> lex_from(a, c, i) == Relation::Less,
        lex_from(b, c, i) == Relation::Less ==> lex_from(a, c, i) == Relation::Less,
    decreases a.len() - i,
{
    if i < a.len() && i < b.len() && i < c.len() && a[i] == b[i] && b[i] == c[i] {
        lemma_lex_transitive(a, b, c, i + 1);
    }
}

/// The order of the values of a column is a total preorder: it compares a value to itself as
/// equal and swapping the two sides flips it.
pub proof fn lemma_value_relation_flips(a: ValueModel, b: ValueModel, collation: Collation)
    ensures
        value_relation(a, a, collation) == Relation::Equal,
        value_relation(b, a, collation) == value_relation(a, b, collation).flipped(),
{
    lemma_lex_flips(a.sort_key(collation), b.sort_key(collation), 0);
    lemma_lex_flips(a.sort_key(collation), a.sort_key(collation), 0);
}

/// The order of the values of a column is transitive.
pub proof fn lemma_value_relation_transitive(
    a: ValueModel,
    b: ValueModel,
    c: ValueModel,
    collation: Collation,
)
    requires
        value_relation(a, b, collation) != Relation::Greater,
        value_relation(b, c, collation) != Relation::Greater,
    ensures
        value_relation(a, c, collation) != Relation::Greater,
        value_relation(a, b, collation) == Relation::Less ==> value_relation(a, c, collation)
            == Relation::Less,
        value_relation(b, c, collation) == Relation::Less ==> value_relation(a, c, collation)
            == Relation::Less,
{
    lemma_lex_transitive(
        a.sort_key(collation),
        b.sort_key(collation),
        c.sort_key(collation),
        0,
    );
}

/// Values of two families are never equal, and the family decides their order.
pub proof fn lemma_families_decide(a: ValueModel, b: ValueModel, collation: Collation)
    ensures
        a.family() != b.family() ==> value_relation(a, b, collation) == int_relation(
            a.family(),
            b.family(),
        ),
        value_relation(a, b, collation) == Relation::Equal ==> a.family() == b.family(),
        a.family() == b.family() ==> value_relation(a, b, collation) == lex(
            a.content_key(collation),
            b.content_key(collation),
        ),
{
    let ka = a.sort_key(collation);
    let kb = b.sort_key(collation);
    assert(ka[0] == a.family() && kb[0] == b.family());
    if a.family() == b.family() {
        lemma_lex_shift(a.content_key(collation), b.content_key(collation), a.family(), 0);
    }
}

proof fn lemma_lex_shift(a: Seq<int>, b: Seq<int>, x: int, i: int)
    requires
        0 <= i,
    ensures
        lex_from(seq![x] + a, seq![x] + b, i + 1) == lex_from(a, b, i),
    decreases a.len() - i,
{
    if i < a.len() && i < b.len() && a[i] == b[i] {
        lemma_lex_shift(a, b, x, i + 1);
    }
}

/// The integers a vector of `i128` holds.
pub open spec fn ints(v: Seq<i128>) -> Seq<int> {
    Seq::new(v.len(), |i: int| v[i] as int)
}

/// The number of characters of `s` once the trailing spaces are left out.
fn trimmed(s: &Vec<char>) -> (n: usize)
    ensures
        n == trimmed_len(s@),
{
    let mut n: usize = s.len();
    assert(s@.take(n as int) =~= s@);
    while n > 0 && s[n - 1] == ' '
        invariant
            n <= s@.len(),
            trimmed_len(s@.take(n as int)) == trimmed_len(s@),
        decreases n,
    {
        assert(s@.take(n as int).drop_last() =~= s@.take(n - 1));
        n = n - 1;
    }
    assert(n > 0 ==> s@.take(n as int).last() == s@[n - 1]);
    n
}

/// The characters of a string.
fn chars_of(s: &String) -> (r: Vec<char>)
    ensures
        r@ == s@,
{
    let mut out: Vec<char> = Vec::new();
    let text: &str = s.as_str();
    let n: usize = text.unicode_len();
    let mut i: usize = 0;
    while i < n
        invariant
            n == text@.len(),
            i <= n,
            out@ == text@.take(i as int),
        decreases n - i,
    {
        out.push(text.get_char(i));
        i = i + 1;
        assert(out@ =~= text@.take(i as int));
    }
    assert(text@.take(n as int) =~= text@);
    out
}

impl Value {
    /// The family of the value.
    fn family(&self) -> (r: i128)
        ensures
            r == self@.family(),
    {
        match self {
            Value::Null => 0,
            Value::Bit(_) => 1,
            Value::I8(_) | Value::I16(_) | Value::I32(_) | Value::I64(_) => 2,
            Value::Decimal(_) | Value::Money(_) => 2,
            Value::F32(_) | Value::F64(_) => 3,
            Value::String(_) => 5,
            Value::Bytes(_) => 6,
            Value::Date(_) => 7,
            Value::Time(_) => 8,
            Value::DateTime(_) => 9,
            Value::DateTime2(_) => 10,
            Value::DateTimeOffset(_) => 11,
            Value::Guid(_) => 12,
        }
    }

    /// What orders the value inside its family.
    fn content_key(&self, collation: &Collation) -> (r: Vec<i128>)
        ensures
            ints(r@) == self@.content_key(*collation),
    {
        let r: Vec<i128> = match self {
            Value::Null => Vec::new(),
            Value::Bit(x) => vec![if *x { 1i128 } else { 0i128 }],
            Value::I8(x) => vec![*x as i128, 0],
            Value::I16(x) => vec![*x as i128, 0],
            Value::I32(x) => vec![*x as i128, 0],
            Value::I64(x) => vec![*x as i128, 0],
            Value::Decimal(x) => vec![x.whole, x.fraction],
            Value::F32(x) => vec![*x as i128],
            Value::F64(x) => vec![*x as i128],
            Value::Money(x) => money_key(*x),
            Value::String(s) => string_key(&chars_of(&s.text), collation),
            Value::Bytes(b) => bytes_key(b),
            Value::Date(x) => vec![*x as i128],
            Value::Time(x) => vec![*x as i128],
            Value::DateTime(x) => vec![*x as i128],
            Value::DateTime2(x) => vec![*x as i128],
            Value::DateTimeOffset(x) => vec![x.ticks as i128],
            Value::Guid(x) => vec![
                (*x / 0x1_0000_0000_0000_0000) as i128,
                (*x % 0x1_0000_0000_0000_0000) as i128,
            ],
        };
        assert(ints(r@) =~= self@.content_key(*collation));
        r
    }

    /// A copy of the value.
    pub fn duplicate(&self) -> (r: Value)
        ensures
            r@ == self@,
    {
        match self {
            Value::Null => Value::Null,
            Value::Bit(x) => Value::Bit(*x),
            Value::I8(x) => Value::I8(*x),
            Value::I16(x) => Value::I16(*x),
            Value::I32(x) => Value::I32(*x),
            Value::I64(x) => Value::I64(*x),
            Value::Decimal(x) => Value::Decimal(*x),
            Value::F32(x) => Value::F32(*x),
            Value::F64(x) => Value::F64(*x),
            Value::Money(x) => Value::Money(*x),
            Value::String(s) => Value::String(SqlString { text: s.text.clone() }),
            Value::Bytes(b) => Value::Bytes(duplicate_bytes(b)),
            Value::Date(x) => Value::Date(*x),
            Value::Time(x) => Value::Time(*x),
            Value::DateTime(x) => Value::DateTime(*x),
            Value::DateTime2(x) => Value::DateTime2(*x),
            Value::DateTimeOffset(x) => Value::DateTimeOffset(*x),
            Value::Guid(x) => Value::Guid(*x),
        }
    }
}

/// What orders an amount of money among the exact numbers: its units, then its ten-thousandths.
fn money_key(x: i64) -> (r: Vec<i128>)
    ensures
        ints(r@) == ValueModel::Money(x).content_key(Collation::DEFAULT),
{
    // Moved above zero, where the two divisions round alike.
    let moved: u128 = (x as i128 + 10_000_000_000_000_000_000) as u128;
    let units: i128 = (moved / 10_000) as i128 - 1_000_000_000_000_000;
    let rest: i128 = (moved % 10_000) as i128 * 10_000_000_000_000_000_000_000_000_000_000_000;
    let r: Vec<i128> = vec![units, rest];
    proof {
        assert(units == x as int / 10_000);
        assert(moved % 10_000 == x as int % 10_000);
        assert(ints(r@) =~= ValueModel::Money(x).content_key(Collation::DEFAULT));
    }
    r
}

/// A copy of a vector of bytes.
pub fn duplicate_bytes(b: &Vec<u8>) -> (r: Vec<u8>)
    ensures
        r@ == b@,
{
    let mut r: Vec<u8> = Vec::with_capacity(b.len());
    r.extend_from_slice(b.as_slice());
    assert(r@ =~= b@);
    r
}

/// What a collation compares of a string, trailing spaces left out.
fn string_key(s: &Vec<char>, collation: &Collation) -> (r: Vec<i128>)
    ensures
        ints(r@) == ValueModel::String(s@).content_key(*collation),
{
    let n: usize = trimmed(s);
    let mut r: Vec<i128> = Vec::with_capacity(n);
    proof {
        lemma_trimmed_bound(s@);
    }
    for i in 0..n
        invariant
            n <= s@.len(),
            r@.len() == i,
            forall|j: int| 0 <= j < i ==> #[trigger] r@[j] as int == char_weight(s@[j], *collation),
    {
        let c: char = s[i];
        let code: u32 = c as u32;
        let w: i128 = match collation {
            Collation::CaseSensitive => code as i128,
            Collation::CaseInsensitive => if 'A' <= c && c <= 'Z' {
                code as i128 + 32
            } else {
                code as i128
            },
        };
        r.push(w);
    }
    assert(ints(r@) =~= ValueModel::String(s@).content_key(*collation));
    r
}

proof fn lemma_trimmed_bound(s: Seq<char>)
    ensures
        trimmed_len(s) <= s.len(),
    decreases s.len(),
{
    if s.len() > 0 && s.last() == ' ' {
        lemma_trimmed_bound(s.drop_last());
    }
}

/// The bytes, as what orders a binary value.
fn bytes_key(b: &Vec<u8>) -> (r: Vec<i128>)
    ensures
        ints(r@) == ValueModel::Bytes(b@).content_key(Collation::DEFAULT),
{
    let mut r: Vec<i128> = Vec::with_capacity(b.len());
    for i in 0..b.len()
        invariant
            r@.len() == i,
            forall|j: int| 0 <= j < i ==> #[trigger] r@[j] as int == b@[j] as int,
    {
        r.push(b[i] as i128);
    }
    assert(ints(r@) =~= ValueModel::Bytes(b@).content_key(Collation::DEFAULT));
    r
}

/// The lexicographic order of two vectors.
fn lex_vec(a: &Vec<i128>, b: &Vec<i128>) -> (r: Relation)
    ensures
        r == lex(ints(a@), ints(b@)),
{
    let mut i: usize = 0;
    let ghost x = ints(a@);
    let ghost y = ints(b@);
    while i < a.len() && i < b.len() && a[i] == b[i]
        invariant
            x == ints(a@),
            y == ints(b@),
            i <= a@.len(),
            i <= b@.len(),
            lex_from(x, y, i as int) == lex(x, y),
        decreases a@.len() - i,
    {
        assert(x[i as int] == a@[i as int] && y[i as int] == b@[i as int]);
        i = i + 1;
    }
    if i >= a.len() && i >= b.len() {
        Relation::Equal
    } else if i >= a.len() {
        Relation::Less
    } else if i >= b.len() {
        Relation::Greater
    } else {
        assert(x[i as int] == a@[i as int] && y[i as int] == b@[i as int]);
        if a[i] < b[i] {
            Relation::Less
        } else {
            Relation::Greater
        }
    }
}

/// Compares two values under a collation: `None` when one of them is `NULL`.
///
/// # Errors
///
/// [`SqlError::IncomparableValues`] for two non-`NULL` values of different families.
pub fn compare(a: &Value, b: &Value, collation: &Collation) -> (r: Result<Option<Relation>, SqlError>)
    ensures
        match r {
            Ok(None) => a@ is Null || b@ is Null,
            Ok(Some(relation)) => {
                &&& !(a@ is Null) && !(b@ is Null)
                &&& a@.family() == b@.family()
                &&& relation == value_relation(a@, b@, *collation)
            },
            Err(e) => {
                &&& !a@.comparable(b@)
                &&& e == SqlError::IncomparableValues
            },
        },
{
    match (a, b) {
        (Value::Null, _) => Ok(None),
        (_, Value::Null) => Ok(None),
        _ => {
            if a.family() != b.family() {
                return Err(SqlError::IncomparableValues);
            }
            proof {
                lemma_families_decide(a@, b@, *collation);
            }
            Ok(Some(lex_vec(&a.content_key(collation), &b.content_key(collation))))
        },
    }
}

} // verus!
