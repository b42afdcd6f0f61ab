//! How the values of a column are ordered, in terms of what they stand for: numbers by their
//! amount, instants by their point in time, strings and bytes by their first difference.

use vstd::prelude::*;

use crate::value::{
    char_weight, lemma_families_decide, lex_from, trimmed_len, value_relation, Collation, Relation,
    ValueModel,
};

verus! {

/// Whether `r` is the order of the integers `a` and `b`.
pub open spec fn tells_order(r: Relation, a: int, b: int) -> bool {
    &&& r == Relation::Less <==> a < b
    &&& r == Relation::Equal <==> a == b
    &&& r == Relation::Greater <==> a > b
}

/// The exact number a value stands for, counted in units of `10^-38`; `None` for a value that is no
/// exact number.
pub open spec fn exact_number(v: ValueModel) -> Option<int> {
    match v {
        ValueModel::I8(x) => Some(x * 100_000_000_000_000_000_000_000_000_000_000_000_000),
        ValueModel::I16(x) => Some(x * 100_000_000_000_000_000_000_000_000_000_000_000_000),
        ValueModel::I32(x) => Some(x * 100_000_000_000_000_000_000_000_000_000_000_000_000),
        ValueModel::I64(x) => Some(x * 100_000_000_000_000_000_000_000_000_000_000_000_000),
        ValueModel::Decimal(d) => if 0 <= d.fraction
            < 100_000_000_000_000_000_000_000_000_000_000_000_000 {
            Some(d.whole * 100_000_000_000_000_000_000_000_000_000_000_000_000 + d.fraction)
        } else {
            None
        },
        ValueModel::Money(x) => Some(x * 10_000_000_000_000_000_000_000_000_000_000_000),
        _ => None,
    }
}

/// What two values that are each one number, but no exact number, are compared by; `None` for values
/// that are not of one kind.
pub open spec fn measures(a: ValueModel, b: ValueModel) -> Option<(int, int)> {
    match (a, b) {
        (ValueModel::Bit(x), ValueModel::Bit(y)) => Some(
            (if x { 1int } else { 0int }, if y { 1int } else { 0int }),
        ),
        (ValueModel::F32(x), ValueModel::F32(y)) => Some((x as int, y as int)),
        (ValueModel::F32(x), ValueModel::F64(y)) => Some((x as int, y as int)),
        (ValueModel::F64(x), ValueModel::F32(y)) => Some((x as int, y as int)),
        (ValueModel::F64(x), ValueModel::F64(y)) => Some((x as int, y as int)),
        (ValueModel::Date(x), ValueModel::Date(y)) => Some((x as int, y as int)),
        (ValueModel::Time(x), ValueModel::Time(y)) => Some((x as int, y as int)),
        (ValueModel::DateTime(x), ValueModel::DateTime(y)) => Some((x as int, y as int)),
        (ValueModel::DateTime2(x), ValueModel::DateTime2(y)) => Some((x as int, y as int)),
        (ValueModel::DateTimeOffset(x), ValueModel::DateTimeOffset(y)) => Some(
            (x.ticks as int, y.ticks as int),
        ),
        (ValueModel::Guid(x), ValueModel::Guid(y)) => Some((x as int, y as int)),
        _ => None,
    }
}

/// Whether a value is a number with exact digits.
pub open spec fn is_exact(v: ValueModel) -> bool {
    v is I8 || v is I16 || v is I32 || v is I64 || v is Decimal || v is Money
}

/// Two exact numbers are compared as the numbers they stand for, whatever their types.
pub proof fn law_exact_numbers_are_ordered(a: ValueModel, b: ValueModel, collation: Collation)
    requires
        exact_number(a) is Some,
        exact_number(b) is Some,
    ensures
        tells_order(value_relation(a, b, collation), exact_number(a)->0, exact_number(b)->0),
        a.comparable(b),
{
    lemma_families_decide(a, b, collation);
    reveal_with_fuel(lex_from, 4);
}

/// Bits, floating-point numbers, dates, times, instants and identifiers are compared as the numbers
/// they are held by; an instant by the point in time alone, whatever its offset.
pub proof fn law_measured_values_are_ordered(a: ValueModel, b: ValueModel, collation: Collation)
    requires
        measures(a, b) is Some,
    ensures
        tells_order(
            value_relation(a, b, collation),
            (measures(a, b)->0).0,
            (measures(a, b)->0).1,
        ),
        a.comparable(b),
{
    lemma_families_decide(a, b, collation);
    reveal_with_fuel(lex_from, 4);
}

/// `NULL` equals `NULL` and comes before everything else.
pub proof fn law_null_comes_first(v: ValueModel, collation: Collation)
    ensures
        value_relation(ValueModel::Null, v, collation) == if v is Null {
            Relation::Equal
        } else {
            Relation::Less
        },
        value_relation(v, ValueModel::Null, collation) == if v is Null {
            Relation::Equal
        } else {
            Relation::Greater
        },
        ValueModel::Null.comparable(v),
        v.comparable(ValueModel::Null),
{
    lemma_families_decide(ValueModel::Null, v, collation);
    lemma_families_decide(v, ValueModel::Null, collation);
    reveal_with_fuel(lex_from, 2);
}

/// Two values can be compared when one of them is `NULL` or both are of one kind: exact numbers,
/// floating-point numbers, strings, bytes, or values of the same type.
pub proof fn law_values_of_one_kind_are_comparable(a: ValueModel, b: ValueModel)
    ensures
        a.comparable(b) <==> {
            ||| a is Null
            ||| b is Null
            ||| is_exact(a) && is_exact(b)
            ||| measures(a, b) is Some
            ||| a is String && b is String
            ||| a is Bytes && b is Bytes
        },
{
}

/// Two sequences that agree up to `j` are compared from there on.
proof fn lemma_lex_from(a: Seq<int>, b: Seq<int>, i: int, j: int)
    requires
        0 <= i <= j <= a.len(),
        j <= b.len(),
        forall|k: int| i <= k < j ==> #[trigger] a[k] == b[k],
    ensures
        lex_from(a, b, i) == lex_from(a, b, j),
    decreases j - i,
{
    if i < j {
        assert(a[i] == b[i]);
        lemma_lex_from(a, b, i + 1, j);
    }
}

/// The code of the letter a collation compares in place of a character: under the one that ignores
/// case, an upper-case letter counts as its lower-case one.
pub open spec fn letter(c: char, collation: Collation) -> int {
    if collation == Collation::CaseInsensitive && 'A' <= c && c <= 'Z' {
        c as u32 + 32
    } else {
        c as u32 as int
    }
}

/// Whether a string ends with a character that is no space.
pub open spec fn trimmed(s: Seq<char>) -> bool {
    s.len() > 0 ==> s.last() != ' '
}

/// Whether two sequences agree before position `i` and differ there, or one or both of them end
/// there.
pub open spec fn parts_at(a: Seq<int>, b: Seq<int>, i: int) -> bool {
    &&& 0 <= i <= a.len()
    &&& i <= b.len()
    &&& forall|k: int| 0 <= k < i ==> #[trigger] a[k] == b[k]
    &&& i < a.len() && i < b.len() ==> a[i] != b[i]
}

/// Whether `r` is how two sequences that part at `i` are ordered: by what stands there, the one that
/// ends there first.
pub open spec fn tells_difference(r: Relation, a: Seq<int>, b: Seq<int>, i: int) -> bool {
    if i < a.len() && i < b.len() {
        tells_order(r, a[i], b[i])
    } else {
        tells_order(r, a.len() as int, b.len() as int)
    }
}

/// The letters a collation compares of a string.
pub open spec fn letters(s: Seq<char>, collation: Collation) -> Seq<int> {
    Seq::new(s.len(), |k: int| letter(s[k], collation))
}

/// Two strings without trailing spaces are ordered by the first letter in which they differ; one
/// that is the beginning of the other comes first.
pub proof fn law_strings_are_ordered(s: Seq<char>, t: Seq<char>, collation: Collation, i: int)
    requires
        trimmed(s),
        trimmed(t),
        parts_at(letters(s, collation), letters(t, collation), i),
    ensures
        tells_difference(
            value_relation(ValueModel::String(s), ValueModel::String(t), collation),
            letters(s, collation),
            letters(t, collation),
            i,
        ),
{
    let a = ValueModel::String(s);
    let b = ValueModel::String(t);
    lemma_families_decide(a, b, collation);
    let ka = a.content_key(collation);
    let kb = b.content_key(collation);
    assert forall|c: char| #[trigger] letter(c, collation) == char_weight(c, collation) by {}
    assert(ka =~= letters(s, collation));
    assert(kb =~= letters(t, collation));
    lemma_lex_from(ka, kb, 0, i);
}

/// Trailing spaces count for nothing.
pub proof fn law_trailing_spaces_count_for_nothing(
    s: Seq<char>,
    n: nat,
    v: ValueModel,
    collation: Collation,
)
    ensures
        ({
            let padded = ValueModel::String(s + Seq::new(n, |i: int| ' '));
            &&& value_relation(ValueModel::String(s), v, collation) == value_relation(
                padded,
                v,
                collation,
            )
            &&& value_relation(v, ValueModel::String(s), collation) == value_relation(
                v,
                padded,
                collation,
            )
        }),
{
    let more = s + Seq::new(n, |i: int| ' ');
    lemma_padded(s, n);
    lemma_trimmed_fits(s);
    assert(ValueModel::String(s).sort_key(collation) =~= ValueModel::String(more).sort_key(
        collation,
    ));
}

/// Trailing spaces do not count into the length of a string.
proof fn lemma_padded(s: Seq<char>, n: nat)
    ensures
        trimmed_len(s + Seq::new(n, |i: int| ' ')) == trimmed_len(s),
    decreases n,
{
    let more = s + Seq::new(n, |i: int| ' ');
    if n == 0 {
        assert(more =~= s);
    } else {
        assert(more.drop_last() =~= s + Seq::new((n - 1) as nat, |i: int| ' '));
        lemma_padded(s, (n - 1) as nat);
    }
}

/// A string without its trailing spaces is no longer than the string.
proof fn lemma_trimmed_fits(s: Seq<char>)
    ensures
        trimmed_len(s) <= s.len(),
    decreases s.len(),
{
    if s.len() > 0 && s.last() == ' ' {
        lemma_trimmed_fits(s.drop_last());
    }
}

/// The numbers of a run of bytes.
pub open spec fn numbers(b: Seq<u8>) -> Seq<int> {
    Seq::new(b.len(), |k: int| b[k] as int)
}

/// Two runs of bytes are ordered by the first byte in which they differ; one that is the beginning of
/// the other comes first.
pub proof fn law_bytes_are_ordered(s: Seq<u8>, t: Seq<u8>, collation: Collation, i: int)
    requires
        parts_at(numbers(s), numbers(t), i),
    ensures
        tells_difference(
            value_relation(ValueModel::Bytes(s), ValueModel::Bytes(t), collation),
            numbers(s),
            numbers(t),
            i,
        ),
{
    let a = ValueModel::Bytes(s);
    let b = ValueModel::Bytes(t);
    lemma_families_decide(a, b, collation);
    assert(a.content_key(collation) =~= numbers(s));
    assert(b.content_key(collation) =~= numbers(t));
    lemma_lex_from(numbers(s), numbers(t), 0, i);
}

} // verus!
