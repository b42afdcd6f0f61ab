//! What the text of numbers, keys and errors tells.

use vstd::prelude::*;

use crate::error::SqlError;
use crate::text::{bytes_text, decimal, digit, hex, key_text, signed};
use crate::value::ValueModel;

verus! {

/// The value of a digit, hexadecimal digits in lower case.
pub open spec fn digit_value(c: char) -> int {
    if '0' <= c && c <= '9' {
        c as u32 - '0' as u32
    } else {
        c as u32 - 'a' as u32 + 10
    }
}

/// The number that digits in a base stand for, the most significant one first.
pub open spec fn number_of(digits: Seq<char>, base: int) -> int
    decreases digits.len(),
{
    if digits.len() == 0 {
        0
    } else {
        number_of(digits.drop_last(), base) * base + digit_value(digits.last())
    }
}

/// A digit has its value.
proof fn lemma_digit(d: int)
    requires
        0 <= d < 16,
    ensures
        digit_value(digit(d)) == d,
        d < 10 ==> '0' <= digit(d) <= '9',
        0 < d ==> digit(d) != '0',
{
}

/// A number in decimal reads back as the number, and has no leading zero.
pub proof fn law_decimal_reads_back(n: nat)
    ensures
        number_of(decimal(n), 10) == n,
        decimal(n).len() >= 1,
        decimal(n).len() >= 2 ==> decimal(n)[0] != '0',
        forall|i: int| 0 <= i < decimal(n).len() ==> '0' <= #[trigger] decimal(n)[i] <= '9',
    decreases n,
{
    lemma_digit((n % 10) as int);
    if n >= 10 {
        law_decimal_reads_back(n / 10);
        let front = decimal(n / 10);
        assert(decimal(n).drop_last() =~= front);
        assert(decimal(n).last() == digit((n % 10) as int));
        assert(decimal(n)[0] == front[0]);
        if front.len() == 1 {
            assert(front.drop_last() =~= Seq::<char>::empty());
            assert(number_of(front, 10) == digit_value(front[0])) by {
                assert(number_of(front.drop_last(), 10) == 0);
            }
        }
        assert forall|i: int| 0 <= i < decimal(n).len() implies '0' <= #[trigger] decimal(n)[i]
            <= '9' by {
            if i < front.len() {
                assert(decimal(n)[i] == front[i]);
            }
        }
    } else {
        assert(decimal(n).drop_last() =~= Seq::<char>::empty());
        assert(number_of(decimal(n).drop_last(), 10) == 0);
        assert(decimal(n).last() == digit(n as int));
    }
}

/// The hexadecimal digits of a number that fits them read back as the number.
pub proof fn law_hex_reads_back(n: nat, width: nat)
    requires
        width > 0 ==> n < vstd::arithmetic::power::pow(16, width),
        width == 0 ==> n == 0,
    ensures
        hex(n, width).len() == width,
        number_of(hex(n, width), 16) == n,
    decreases width,
{
    if width > 0 {
        vstd::arithmetic::power::lemma_pow1(16);
        vstd::arithmetic::power::lemma_pow_adds(16, (width - 1) as nat, 1);
        vstd::arithmetic::power::lemma_pow0(16);
        let rest = (width - 1) as nat;
        assert(n / 16 < vstd::arithmetic::power::pow(16, rest)) by (nonlinear_arith)
            requires
                n < vstd::arithmetic::power::pow(16, rest) * 16,
        ;
        law_hex_reads_back(n / 16, rest);
        lemma_digit((n % 16) as int);
        assert(hex(n, width).drop_last() =~= hex(n / 16, rest));
    }
}

/// A number below zero is shown by a sign and its size; any other by its digits alone.
pub proof fn law_sign_is_shown_below_zero(n: int)
    ensures
        n >= 0 ==> signed(n) == decimal(n as nat),
        n < 0 ==> signed(n).len() == decimal((-n) as nat).len() + 1 && signed(n)[0] == '-' && signed(
            n,
        ).skip(1) == decimal((-n) as nat),
{
    reveal_strlit("-");
    if n < 0 {
        assert(signed(n).skip(1) =~= decimal((-n) as nat));
    }
}

/// The text of a key shows its values in order, between brackets, with a comma and a space between two
/// of them.
pub proof fn law_key_is_shown_value_by_value(key: Seq<ValueModel>, v: ValueModel)
    ensures
        key_text(Seq::empty()) == Seq::<char>::empty() + "("@ + ")"@,
        key_text(seq![v]) == Seq::<char>::empty() + "("@ + v.text() + ")"@,
        key.len() > 0 ==> key_text(key.push(v)) == key_text(key).drop_last() + ", "@ + v.text()
            + ")"@,
{
    reveal_strlit("(");
    reveal_strlit(")");
    assert(key_text(Seq::empty()) =~= Seq::<char>::empty() + "("@ + ")"@);
    assert(key_text(seq![v]) =~= Seq::<char>::empty() + "("@ + v.text() + ")"@);
    if key.len() > 0 {
        assert(key.push(v).drop_last() =~= key);
        assert(key_text(key.push(v)) =~= key_text(key).drop_last() + ", "@ + v.text() + ")"@);
    }
}

/// The text of bytes shows them in order, in decimal, with a comma and a space between two of them.
pub proof fn law_bytes_are_shown_one_by_one(b: Seq<u8>, x: u8)
    ensures
        bytes_text(Seq::empty()) == Seq::<char>::empty(),
        bytes_text(seq![x]) == decimal(x as nat),
        b.len() > 0 ==> bytes_text(b.push(x)) == bytes_text(b) + ", "@ + decimal(x as nat),
{
    if b.len() > 0 {
        assert(b.push(x).drop_last() =~= b);
    }
}

/// The four kinds of errors have the numbers clients know them by.
pub proof fn law_errors_have_their_numbers(e: SqlError)
    ensures
        e is DuplicateKey <==> e.code() == 2601,
        e is ClusteredKeyTooWide <==> e.code() == 1946,
        e is IncomparableValues <==> e.code() == 206,
        e is Internal <==> e.code() == 50000,
{
}

/// The message of a duplicate key names the table, the index and the key.
pub proof fn law_duplicate_key_is_named(e: SqlError)
    requires
        e is DuplicateKey,
    ensures
        exists|a: Seq<char>, b: Seq<char>, c: Seq<char>, d: Seq<char>|
            e.text() == #[trigger] (a + decimal(e->DuplicateKey_table.0 as nat) + b + decimal(
                e->DuplicateKey_index.0 as nat,
            ) + c + key_text(e->DuplicateKey_key.deep_view()) + d),
{
    let a = Seq::<char>::empty() + "Cannot insert duplicate key row in object '"@;
    let b = "' with unique index '"@;
    let c = "'. The duplicate key value is "@;
    let d = "."@;
    assert(e.text() == a + decimal(e->DuplicateKey_table.0 as nat) + b + decimal(
        e->DuplicateKey_index.0 as nat,
    ) + c + key_text(e->DuplicateKey_key.deep_view()) + d);
}

} // verus!
