//! Human-readable size labels ("12 GB", "3 MB", "999 KB", "17 B").

use vstd::prelude::*;

verus! {

/// The decimal digit character for `d` (0 through 9).
pub open spec fn digit_char(d: nat) -> char {
    if d == 0 { '0' }
    else if d == 1 { '1' }
    else if d == 2 { '2' }
    else if d == 3 { '3' }
    else if d == 4 { '4' }
    else if d == 5 { '5' }
    else if d == 6 { '6' }
    else if d == 7 { '7' }
    else if d == 8 { '8' }
    else { '9' }
}

/// The decimal representation of `n`, without leading zeros ("0" for zero).
pub open spec fn decimal_digits(n: nat) -> Seq<char>
    decreases n,
{
    if n < 10 {
        seq![digit_char(n)]
    } else {
        decimal_digits(n / 10).push(digit_char(n % 10))
    }
}

/// The number that a string of decimal digits spells.
pub open spec fn digits_value(s: Seq<char>) -> int
    decreases s.len(),
{
    if s.len() == 0 {
        0
    } else {
        10 * digits_value(s.drop_last()) + (s.last() as int - '0' as int)
    }
}

/// The decimal representation of `n` is made of the characters '0' to '9',
/// spells `n`, and starts with '0' only when it is "0" itself.
pub proof fn lemma_decimal_digits_spell(n: nat)
    ensures
        decimal_digits(n).len() >= 1,
        forall|i: int| 0 <= i < decimal_digits(n).len() ==> '0' <= #[trigger] decimal_digits(n)[i] <= '9',
        digits_value(decimal_digits(n)) == n,
        decimal_digits(n)[0] == '0' ==> n == 0 && decimal_digits(n).len() == 1,
    decreases n,
{
    let d = n % 10;
    assert(digit_char(d) as int - '0' as int == d);
    let s = decimal_digits(n);
    if n >= 10 {
        lemma_decimal_digits_spell(n / 10);
        assert(s.drop_last() =~= decimal_digits(n / 10));
        assert(s.last() == digit_char(d));
        assert(s[0] == decimal_digits(n / 10)[0]);
        assert(digits_value(s) == 10 * digits_value(s.drop_last()) + (s.last() as int - '0' as int));
        assert(n == 10 * (n / 10) + d);
    } else {
        assert(d == n);
        assert(s.drop_last() =~= Seq::<char>::empty());
        assert(s.last() == digit_char(d));
        assert(digits_value(s) == 10 * digits_value(s.drop_last()) + (s.last() as int - '0' as int));
        assert(digits_value(Seq::<char>::empty()) == 0);
    }
}

/// A one-character string literal holding the digit `d`.
fn digit_str(d: u64) -> (s: &'static str)
    requires
        d < 10,
    ensures
        s@ == seq![digit_char(d as nat)],
{
    proof {
        reveal_strlit("0");
        reveal_strlit("1");
        reveal_strlit("2");
        reveal_strlit("3");
        reveal_strlit("4");
        reveal_strlit("5");
        reveal_strlit("6");
        reveal_strlit("7");
        reveal_strlit("8");
        reveal_strlit("9");
    }
    if d == 0 { "0" }
    else if d == 1 { "1" }
    else if d == 2 { "2" }
    else if d == 3 { "3" }
    else if d == 4 { "4" }
    else if d == 5 { "5" }
    else if d == 6 { "6" }
    else if d == 7 { "7" }
    else if d == 8 { "8" }
    else { "9" }
}

/// Appends the decimal representation of `n` to `out`.
pub fn push_decimal(out: &mut String, n: u64)
    ensures
        final(out)@ == old(out)@ + decimal_digits(n as nat),
    decreases n,
{
    if n >= 10 {
        push_decimal(out, n / 10);
    }
    out.append(digit_str(n % 10));
    proof {
        assert(decimal_digits(n as nat) =~= if n < 10 {
            seq![digit_char(n as nat)]
        } else {
            decimal_digits((n / 10) as nat).push(digit_char((n % 10) as nat))
        });
    }
}


/// The unit that a size label uses for `bytes`, in bytes: 10^9 (GB) above
/// 10^9 bytes, 10^6 (MB) above 10^6, 10^3 (KB) above 10^3, else 1 (B).
pub open spec fn size_unit(bytes: nat) -> nat {
    if bytes > 1_000_000_000 {
        1_000_000_000
    } else if bytes > 1_000_000 {
        1_000_000
    } else if bytes > 1000 {
        1000
    } else {
        1
    }
}

/// The suffix that a size label puts after the number for `bytes`.
pub open spec fn size_suffix(bytes: nat) -> Seq<char> {
    if bytes > 1_000_000_000 {
        seq![' ', 'G', 'B']
    } else if bytes > 1_000_000 {
        seq![' ', 'M', 'B']
    } else if bytes > 1000 {
        seq![' ', 'K', 'B']
    } else {
        seq![' ', 'B']
    }
}

/// The label shown for a size of `bytes`: the whole number of units
/// (rounded down), a space and the unit's name.
pub open spec fn size_label_spec(bytes: nat) -> Seq<char> {
    decimal_digits(bytes / size_unit(bytes)) + size_suffix(bytes)
}

/// The label for a size in bytes, such as "12 GB", "3 MB", "999 KB" or "17 B".
pub fn size_label(bytes: u64) -> (label: String)
    ensures
        label@ == size_label_spec(bytes as nat),
        bytes > 1_000_000_000 ==> label@ == decimal_digits((bytes / 1_000_000_000) as nat) + seq![' ', 'G', 'B'],
        1_000_000 < bytes <= 1_000_000_000 ==> label@ == decimal_digits((bytes / 1_000_000) as nat) + seq![' ', 'M', 'B'],
        1000 < bytes <= 1_000_000 ==> label@ == decimal_digits((bytes / 1000) as nat) + seq![' ', 'K', 'B'],
        bytes <= 1000 ==> label@ == decimal_digits(bytes as nat) + seq![' ', 'B'],
{
    let mut label = String::new();
    if bytes > 1_000_000_000 {
        push_decimal(&mut label, bytes / 1_000_000_000);
        proof { reveal_strlit(" GB"); }
        label.append(" GB");
    } else if bytes > 1_000_000 {
        push_decimal(&mut label, bytes / 1_000_000);
        proof { reveal_strlit(" MB"); }
        label.append(" MB");
    } else if bytes > 1000 {
        push_decimal(&mut label, bytes / 1000);
        proof { reveal_strlit(" KB"); }
        label.append(" KB");
    } else {
        push_decimal(&mut label, bytes);
        proof { reveal_strlit(" B"); }
        label.append(" B");
    }
    assert(label@ =~= size_label_spec(bytes as nat));
    label
}

/// The labels of a list of sizes, in the same order.
pub fn size(sizes: &Vec<u64>) -> (labels: Vec<String>)
    ensures
        labels.len() == sizes.len(),
        forall|i: int| 0 <= i < sizes.len() ==> #[trigger] labels[i]@ == size_label_spec(sizes[i] as nat),
        forall|i: int| 0 <= i < sizes.len() && sizes[i] > 1_000_000_000 ==>
            #[trigger] labels[i]@ == decimal_digits((sizes[i] / 1_000_000_000) as nat) + seq![' ', 'G', 'B'],
        forall|i: int| 0 <= i < sizes.len() && 1_000_000 < sizes[i] <= 1_000_000_000 ==>
            #[trigger] labels[i]@ == decimal_digits((sizes[i] / 1_000_000) as nat) + seq![' ', 'M', 'B'],
        forall|i: int| 0 <= i < sizes.len() && 1000 < sizes[i] <= 1_000_000 ==>
            #[trigger] labels[i]@ == decimal_digits((sizes[i] / 1000) as nat) + seq![' ', 'K', 'B'],
        forall|i: int| 0 <= i < sizes.len() && sizes[i] <= 1000 ==>
            #[trigger] labels[i]@ == decimal_digits(sizes[i] as nat) + seq![' ', 'B'],
{
    let mut labels: Vec<String> = Vec::new();
    for k in 0..sizes.len()
        invariant
            labels.len() == k,
            forall|i: int| 0 <= i < k ==> #[trigger] labels[i]@ == size_label_spec(sizes[i] as nat),
    {
        labels.push(size_label(sizes[k]));
    }
    labels
}

/// The label of a size is the decimal number of whole gigabytes above
/// 10^9 bytes, of whole megabytes above 10^6, of whole kilobytes above 10^3,
/// and of bytes otherwise, followed by the unit's name; and that number `n`
/// satisfies `n * unit <= bytes < (n + 1) * unit`.
pub proof fn lemma_size_label_units(bytes: nat)
    ensures
        bytes > 1_000_000_000 ==> size_label_spec(bytes) == decimal_digits(bytes / 1_000_000_000) + seq![' ', 'G', 'B'],
        1_000_000 < bytes <= 1_000_000_000 ==> size_label_spec(bytes) == decimal_digits(bytes / 1_000_000) + seq![' ', 'M', 'B'],
        1000 < bytes <= 1_000_000 ==> size_label_spec(bytes) == decimal_digits(bytes / 1000) + seq![' ', 'K', 'B'],
        bytes <= 1000 ==> size_label_spec(bytes) == decimal_digits(bytes) + seq![' ', 'B'],
        (bytes / 1_000_000_000) * 1_000_000_000 <= bytes < (bytes / 1_000_000_000 + 1) * 1_000_000_000,
        (bytes / 1_000_000) * 1_000_000 <= bytes < (bytes / 1_000_000 + 1) * 1_000_000,
        (bytes / 1000) * 1000 <= bytes < (bytes / 1000 + 1) * 1000,
{
    assert(bytes <= 1000 ==> bytes / size_unit(bytes) == bytes);
}

/// A size label never overstates: the number it shows (`bytes / size_unit`),
/// times its unit, is at most the size, and one more unit would exceed it.
/// Above 1000 bytes the number is at least 1, and below the gigabyte unit it
/// is at most 1000.
pub proof fn lemma_size_label_bounds(bytes: nat)
    ensures
        (bytes / size_unit(bytes)) * size_unit(bytes) <= bytes,
        bytes < (bytes / size_unit(bytes) + 1) * size_unit(bytes),
        bytes > 1000 ==> bytes / size_unit(bytes) >= 1,
        size_unit(bytes) < 1_000_000_000 ==> bytes / size_unit(bytes) <= 1000,
{
    let u = size_unit(bytes);
    assert(u > 0);
    vstd::arithmetic::div_mod::lemma_fundamental_div_mod(bytes as int, u as int);
    assert(0 <= bytes % u < u) by {
        vstd::arithmetic::div_mod::lemma_mod_bound(bytes as int, u as int);
    }
}

} // verus!
