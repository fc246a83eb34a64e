//! The names of arena files.
use vstd::prelude::*;

verus! {

/// A number in decimal digits.
pub open spec fn decimal(n: nat) -> Seq<u8>
    decreases n,
{
    if n < 10 {
        seq![(48 + n) as u8]
    } else {
        decimal(n / 10).push((48 + n % 10) as u8)
    }
}

pub open spec fn is_digit(c: u8) -> bool {
    48 <= c <= 57
}

/// The number that digits spell.
pub open spec fn spelled(digits: Seq<u8>) -> nat
    decreases digits.len(),
{
    if digits.len() == 0 {
        0
    } else {
        spelled(digits.drop_last()) * 10 + (digits.last() - 48) as nat
    }
}

/// The number that a text of digits spells, where a word of 64 bits can hold
/// it.
pub open spec fn counted(digits: Seq<u8>) -> Option<u64> {
    if digits.len() > 0 && (forall|i: int| 0 <= i < digits.len() ==> is_digit(digits[i]))
        && spelled(digits) <= u64::MAX {
        Some(spelled(digits) as u64)
    } else {
        None
    }
}

/// The number in a text of digits that may start with a plus sign.
pub open spec fn number_in(text: Seq<u8>) -> Option<u64> {
    counted(
        if text.len() > 0 && text[0] == 43 {
            text.skip(1)
        } else {
            text
        },
    )
}

/// `arena-`
pub open spec fn head() -> Seq<u8> {
    seq![97u8, 114u8, 101u8, 110u8, 97u8, 45u8]
}

/// `.spi`
pub open spec fn tail() -> Seq<u8> {
    seq![46u8, 115u8, 112u8, 105u8]
}

/// The name of the arena file of an epoch.
pub open spec fn arena_bytes(id: u64) -> Seq<u8> {
    head() + decimal(id as nat) + tail()
}

/// The epoch that a file name stands for, where it is an arena's.
pub open spec fn epoch_of(name: Seq<u8>) -> Option<u64> {
    if name.len() >= 10 && name.take(6) == head() && name.skip(name.len() - 4) == tail() {
        number_in(name.subrange(6, name.len() - 4))
    } else {
        None
    }
}

proof fn decimal_digits(n: nat)
    ensures
        decimal(n).len() > 0,
        forall|i: int| 0 <= i < decimal(n).len() ==> is_digit(#[trigger] decimal(n)[i]),
        spelled(decimal(n)) == n,
    decreases n,
{
    if n < 10 {
        assert(decimal(n).drop_last() =~= Seq::empty());
        assert(spelled(Seq::empty()) == 0);
    } else {
        decimal_digits(n / 10);
        assert(decimal(n).drop_last() =~= decimal(n / 10));
    }
}

/// The name of an epoch's arena file stands for that epoch.
pub proof fn name_stands_for(id: u64)
    ensures
        epoch_of(arena_bytes(id)) == Some(id),
{
    decimal_digits(id as nat);
    let name = arena_bytes(id);
    let digits = decimal(id as nat);
    assert(name.take(6) =~= head());
    assert(name.skip(name.len() - 4) =~= tail());
    assert(name.subrange(6, name.len() - 4) =~= digits);
    assert(is_digit(digits[0]));
}

/// Two epochs have two names.
pub proof fn names_differ(a: u64, b: u64)
    requires
        arena_bytes(a) == arena_bytes(b),
    ensures
        a == b,
{
    name_stands_for(a);
    name_stands_for(b);
}

fn digits_of(n: u64) -> (d: Vec<u8>)
    ensures
        d@ == decimal(n as nat),
    decreases n,
{
    if n < 10 {
        vec![48 + n as u8]
    } else {
        let mut d = digits_of(n / 10);
        d.push(48 + (n % 10) as u8);
        d
    }
}

/// The name of the arena file of an epoch.
pub fn arena_name(id: u64) -> (name: Vec<u8>)
    ensures
        name@ == arena_bytes(id),
{
    let mut name: Vec<u8> = vec![97, 114, 101, 110, 97, 45];
    let mut digits = digits_of(id);
    let mut end: Vec<u8> = vec![46, 115, 112, 105];
    name.append(&mut digits);
    name.append(&mut end);
    assert(name@ =~= arena_bytes(id));
    name
}

/// The epoch that a file name stands for, where it is an arena's.
pub fn arena_id(name: &[u8]) -> (r: Option<u64>)
    ensures
        r == epoch_of(name@),
{
    let n: usize = name.len();
    if n < 10 || name[0] != 97 || name[1] != 114 || name[2] != 101 || name[3] != 110 || name[4]
        != 97 || name[5] != 45 || name[n - 4] != 46 || name[n - 3] != 115 || name[n - 2] != 112
        || name[n - 1] != 105 {
        proof {
            if n >= 10 {
                let (a, b) = (name@.take(6), name@.skip(n - 4));
                assert(a == head() ==> a[0] == 97 && a[1] == 114 && a[2] == 101 && a[3] == 110
                    && a[4] == 97 && a[5] == 45);
                assert(b == tail() ==> b[0] == 46 && b[1] == 115 && b[2] == 112 && b[3] == 105);
            }
        }
        return None;
    }
    assert(name@.take(6) =~= head());
    assert(name@.skip(n - 4) =~= tail());
    let ghost text = name@.subrange(6, n - 4);
    let plus: usize = if n > 10 && name[6] == 43 {
        1
    } else {
        0
    };
    let ghost digits = if text.len() > 0 && text[0] == 43 {
        text.skip(1)
    } else {
        text
    };
    assert(digits =~= name@.subrange(6 + plus, n - 4));
    assert(epoch_of(name@) == counted(digits));
    let mut value: u64 = 0;
    let mut i: usize = 6 + plus;
    assert(digits.take(0) =~= Seq::empty());
    while i < n - 4
        invariant
            n == name@.len(),
            n >= 10,
            plus <= 1,
            6 + plus <= n - 4,
            6 + plus <= i <= n - 4,
            digits == name@.subrange(6 + plus, n - 4),
            epoch_of(name@) == counted(digits),
            value == spelled(digits.take(i - 6 - plus)),
            forall|k: int| 0 <= k < i - 6 - plus ==> is_digit(#[trigger] digits[k]),
        decreases n - i,
    {
        let c = name[i];
        let ghost at = i - 6 - plus;
        assert(digits[at] == c);
        if c < 48 || c > 57 {
            return None;
        }
        assert(digits.take(at + 1).drop_last() =~= digits.take(at));
        let d: u64 = (c - 48) as u64;
        if value > (u64::MAX - d) / 10 {
            proof {
                assert(spelled(digits.take(at + 1)) > u64::MAX);
                spelling_grows(digits, at + 1);
            }
            return None;
        }
        value = value * 10 + d;
        i = i + 1;
    }
    assert(digits.take(i - 6 - plus) =~= digits);
    if i == 6 + plus {
        return None;
    }
    Some(value)
}

/// More digits spell no smaller a number.
proof fn spelling_grows(digits: Seq<u8>, n: int)
    requires
        0 <= n <= digits.len(),
    ensures
        spelled(digits.take(n)) <= spelled(digits) || exists|k: int|
            n <= k < digits.len() && !is_digit(#[trigger] digits[k]),
    decreases digits.len(),
{
    if n == digits.len() {
        assert(digits.take(n) =~= digits);
    } else {
        let shorter = digits.drop_last();
        assert(shorter.take(n) =~= digits.take(n));
        spelling_grows(shorter, n);
        if exists|k: int| n <= k < shorter.len() && !is_digit(#[trigger] shorter[k]) {
            let k = choose|k: int| n <= k < shorter.len() && !is_digit(#[trigger] shorter[k]);
            assert(!is_digit(digits[k]));
        } else if is_digit(digits[digits.len() - 1]) {
            assert(spelled(digits) == spelled(shorter) * 10 + (digits.last() - 48) as nat);
        }
    }
}

} // verus!
