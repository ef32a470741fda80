//! The names of the files that hold the store on disk.
//!
//! The segment of an epoch is kept in the file `kvs-data-<epoch>`, with the
//! epoch in decimal, and the kind of the engine in the file `.engine`. The
//! names are handled as bytes.
use vstd::prelude::*;

verus! {

/// The decimal digits of `n` as ASCII bytes, without leading zeros.
pub open spec fn decimal(n: nat) -> Seq<u8>
    decreases n,
{
    if n < 10 {
        seq![(48 + n) as u8]
    } else {
        decimal(n / 10).push((48 + n % 10) as u8)
    }
}

/// The bytes of `kvs-data-`, with which the name of every data file begins.
pub open spec fn data_file_prefix() -> Seq<u8> {
    seq![107u8, 118u8, 115u8, 45u8, 100u8, 97u8, 116u8, 97u8, 45u8]
}

/// The name of the file that holds the segment of `epoch`.
pub open spec fn data_file_name_spec(epoch: u64) -> Seq<u8> {
    data_file_prefix() + decimal(epoch as nat)
}

/// The digits of a number are at least one, and each of them is a digit.
pub proof fn lemma_decimal_digits(n: nat)
    ensures
        decimal(n).len() >= 1,
        n >= 10 ==> decimal(n).len() >= 2,
        forall|i: int| 0 <= i < decimal(n).len() ==> 48 <= #[trigger] decimal(n)[i] <= 57,
        decimal(n)[0] == 48 <==> n == 0,
    decreases n,
{
    if n >= 10 {
        lemma_decimal_digits(n / 10);
    }
}

/// Different numbers have different digits.
pub proof fn lemma_decimal_injective(a: nat, b: nat)
    requires
        decimal(a) == decimal(b),
    ensures
        a == b,
    decreases a,
{
    lemma_decimal_digits(a);
    lemma_decimal_digits(b);
    if a >= 10 {
        assert(b >= 10) by {
            if b < 10 {
                assert(decimal(b).len() == 1);
            }
        }
        assert(decimal(a).drop_last() == decimal(a / 10));
        assert(decimal(b).drop_last() == decimal(b / 10));
        assert(decimal(a).last() == (48 + a % 10) as u8);
        assert(decimal(b).last() == (48 + b % 10) as u8);
        lemma_decimal_injective(a / 10, b / 10);
        assert(a % 10 == b % 10);
    } else {
        assert(decimal(a).len() == 1);
        assert(decimal(a)[0] == (48 + a) as u8);
        assert(b < 10);
        assert(decimal(b)[0] == (48 + b) as u8);
    }
}

/// The first digits of a number are the digits of a number that is no
/// larger.
pub proof fn lemma_decimal_prefix(n: nat, length: int, m: nat)
    requires
        1 <= length <= decimal(n).len(),
        decimal(n).take(length) == decimal(m),
    ensures
        m <= n,
    decreases n,
{
    if length == decimal(n).len() {
        assert(decimal(n).take(length) == decimal(n));
        lemma_decimal_injective(n, m);
    } else {
        lemma_decimal_digits(n);
        assert(decimal(n).take(length) == decimal(n / 10).take(length));
        lemma_decimal_prefix(n / 10, length, m);
    }
}

/// The segments of different epochs are kept in files of different names.
pub proof fn law_names_differ(a: u64, b: u64)
    requires
        data_file_name_spec(a) == data_file_name_spec(b),
    ensures
        a == b,
{
    let prefix = data_file_prefix();
    assert(data_file_name_spec(a).skip(prefix.len() as int) == decimal(a as nat));
    assert(data_file_name_spec(b).skip(prefix.len() as int) == decimal(b as nat));
    lemma_decimal_injective(a as nat, b as nat);
}

/// Appends the decimal digits of `n` to `out`.
fn push_decimal(out: &mut Vec<u8>, n: u64)
    ensures
        final(out)@ == old(out)@ + decimal(n as nat),
    decreases n,
{
    if n >= 10 {
        push_decimal(out, n / 10);
    }
    out.push(48 + (n % 10) as u8);
    assert(out@ == old(out)@ + decimal(n as nat));
}

/// The name of the file that marks the engine's kind.
pub fn engine_marker_name() -> (name: Vec<u8>)
    ensures
        name@ == seq![46u8, 101u8, 110u8, 103u8, 105u8, 110u8, 101u8],
{
    let mut name: Vec<u8> = Vec::new();
    name.push(46);
    name.push(101);
    name.push(110);
    name.push(103);
    name.push(105);
    name.push(110);
    name.push(101);
    name
}

/// The bytes of `kvs-data-`.
fn prefix_bytes() -> (prefix: Vec<u8>)
    ensures
        prefix@ == data_file_prefix(),
{
    let mut prefix: Vec<u8> = Vec::new();
    prefix.push(107);
    prefix.push(118);
    prefix.push(115);
    prefix.push(45);
    prefix.push(100);
    prefix.push(97);
    prefix.push(116);
    prefix.push(97);
    prefix.push(45);
    assert(prefix@ == data_file_prefix());
    prefix
}

/// The name of the file that holds the segment of `epoch`.
pub fn data_file_name(epoch: u64) -> (name: Vec<u8>)
    ensures
        name@ == data_file_name_spec(epoch),
{
    let mut name = prefix_bytes();
    push_decimal(&mut name, epoch);
    name
}

/// The epoch whose segment the file named `name` holds, if `name` is the
/// name of a data file: `kvs-data-` and a number above zero in decimal,
/// without leading zeros.
pub fn data_file_epoch(name: &[u8]) -> (r: Option<u64>)
    ensures
        match r {
            Some(epoch) => epoch > 0 && name@ == data_file_name_spec(epoch),
            None => forall|epoch: u64| epoch > 0 ==> name@ != #[trigger] data_file_name_spec(epoch),
        },
{
    let prefix = prefix_bytes();
    let start: usize = 9;
    if name.len() <= start {
        assert forall|epoch: u64| epoch > 0 implies name@ != #[trigger] data_file_name_spec(
            epoch,
        ) by {
            lemma_decimal_digits(epoch as nat);
        }
        return None;
    }
    let mut p: usize = 0;
    while p < start
        invariant
            p <= start,
            start == 9,
            name@.len() > start,
            prefix@ == data_file_prefix(),
            forall|j: int| 0 <= j < p ==> name@[j] == data_file_prefix()[j],
        decreases start - p,
    {
        if name[p] != prefix[p] {
            assert forall|epoch: u64| epoch > 0 implies name@ != #[trigger] data_file_name_spec(
                epoch,
            ) by {
                assert(data_file_name_spec(epoch)[p as int] == data_file_prefix()[p as int]);
            }
            return None;
        }
        p = p + 1;
    }
    let ghost digits = name@.skip(9);
    assert(name@ == data_file_prefix() + digits) by {
        assert(name@.take(9) == data_file_prefix());
        assert(name@ == name@.take(9) + name@.skip(9));
    }
    let mut value: u64 = 0;
    let mut i: usize = start;
    while i < name.len()
        invariant
            start == 9,
            start <= i <= name.len(),
            digits == name@.skip(9),
            name@ == data_file_prefix() + digits,
            i == start ==> value == 0,
            i > start ==> digits.take(i - 9) == decimal(value as nat),
        decreases name.len() - i,
    {
        let byte = name[i];
        assert(digits[i - 9] == byte);
        if byte < 48 || byte > 57 {
            assert forall|epoch: u64| epoch > 0 implies name@ != #[trigger] data_file_name_spec(
                epoch,
            ) by {
                lemma_decimal_digits(epoch as nat);
                if name@ == data_file_name_spec(epoch) {
                    assert(digits == decimal(epoch as nat)) by {
                        assert(data_file_name_spec(epoch).skip(9) == decimal(epoch as nat));
                    }
                    assert(48 <= decimal(epoch as nat)[i - 9] <= 57);
                }
            }
            return None;
        }
        let digit = (byte - 48) as u64;
        if i > start && value == 0 {
            assert forall|epoch: u64| epoch > 0 implies name@ != #[trigger] data_file_name_spec(
                epoch,
            ) by {
                lemma_decimal_digits(epoch as nat);
                if name@ == data_file_name_spec(epoch) {
                    assert(digits == decimal(epoch as nat)) by {
                        assert(data_file_name_spec(epoch).skip(9) == decimal(epoch as nat));
                    }
                    assert(digits.take(i - 9)[0] == digits[0]);
                    assert(decimal(0)[0] == 48);
                }
            }
            return None;
        }
        if value > (u64::MAX - digit) / 10 {
            assert forall|epoch: u64| epoch > 0 implies name@ != #[trigger] data_file_name_spec(
                epoch,
            ) by {
                if name@ == data_file_name_spec(epoch) {
                    assert(digits == decimal(epoch as nat)) by {
                        assert(data_file_name_spec(epoch).skip(9) == decimal(epoch as nat));
                    }
                    let longer = (value * 10 + digit) as nat;
                    assert(decimal(longer) == decimal(value as nat).push(byte)) by {
                        assert(longer / 10 == value && longer % 10 == digit);
                    }
                    assert(digits.take(i - 9 + 1) == digits.take(i - 9).push(byte));
                    lemma_decimal_prefix(epoch as nat, i - 9 + 1, longer);
                }
            }
            return None;
        }
        proof {
            let longer = (value * 10 + digit) as nat;
            assert(digits.take(i - 9 + 1) == digits.take(i - 9).push(byte));
            if i > start {
                assert(decimal(longer) == decimal(value as nat).push(byte)) by {
                    assert(longer / 10 == value && longer % 10 == digit);
                }
            } else {
                assert(digits.take(0) == Seq::<u8>::empty());
                assert(digits.take(1) == seq![byte]);
            }
        }
        value = value * 10 + digit;
        i = i + 1;
    }
    assert(digits.take(digits.len() as int) == digits);
    if value == 0 {
        assert forall|epoch: u64| epoch > 0 implies name@ != #[trigger] data_file_name_spec(
            epoch,
        ) by {
            if name@ == data_file_name_spec(epoch) {
                assert(data_file_name_spec(epoch).skip(9) == decimal(epoch as nat));
                lemma_decimal_injective(epoch as nat, 0);
            }
        }
        return None;
    }
    Some(value)
}

} // verus!
