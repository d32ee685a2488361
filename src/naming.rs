use vstd::prelude::*;

verus! {

/// The letter that opens the extension of every part file, followed by the
/// part's ordinal.
pub const EXTENSION_PREFIX: &'static str = "p";

/// `EXTENSION_PREFIX` as a byte.
pub const PREFIX_BYTE: u8 = 0x70;

/// The byte that separates a name from its extension.
pub const DOT: u8 = 0x2e;

/// The byte of the digit zero.
pub const ZERO: u8 = 0x30;

pub open spec fn is_digit(b: u8) -> bool {
    ZERO <= b <= ZERO + 9
}

/// The value of a string of decimal digits.
pub open spec fn decimal_value(ds: Seq<u8>) -> nat
    decreases ds.len(),
{
    if ds.len() == 0 {
        0
    } else {
        decimal_value(ds.drop_last()) * 10 + (ds.last() - ZERO) as nat
    }
}

/// `n` written in decimal, without leading zeros.
pub open spec fn decimal_digits(n: nat) -> Seq<u8>
    decreases n,
{
    if n < 10 {
        seq![(ZERO + n) as u8]
    } else {
        decimal_digits(n / 10).push((ZERO + n % 10) as u8)
    }
}

/// `n` written in decimal and padded with zeros on the left to at least
/// `width` digits.
pub open spec fn padded_decimal(n: nat, width: nat) -> Seq<u8> {
    let ds = decimal_digits(n);
    if ds.len() < width {
        Seq::new((width - ds.len()) as nat, |i: int| ZERO) + ds
    } else {
        ds
    }
}

/// The name of the part with the given ordinal of the file named `original`.
pub open spec fn part_name(original: Seq<u8>, ordinal: nat, width: nat) -> Seq<u8> {
    original + seq![DOT, PREFIX_BYTE] + padded_decimal(ordinal, width)
}

/// How many digits `s` ends with.
pub open spec fn trailing_digits(s: Seq<u8>) -> nat
    decreases s.len(),
{
    if s.len() > 0 && is_digit(s.last()) {
        1 + trailing_digits(s.drop_last())
    } else {
        0
    }
}

/// Whatever follows the last dot of `s` is the prefix and one or more digits.
pub open spec fn has_part_suffix(s: Seq<u8>) -> bool {
    let t = trailing_digits(s);
    &&& t >= 1
    &&& s.len() >= t + 2
    &&& s[s.len() - t - 1] == PREFIX_BYTE
    &&& s[s.len() - t - 2] == DOT
}

/// `s` without its part suffix, or `s` itself where it has none.
pub open spec fn stem_of(s: Seq<u8>) -> Seq<u8> {
    if has_part_suffix(s) {
        s.subrange(0, s.len() - trailing_digits(s) - 2)
    } else {
        s
    }
}

/// The ordinal that the part suffix of `s` spells, leading zeros ignored.
pub open spec fn ordinal_of(s: Seq<u8>) -> Option<nat> {
    if has_part_suffix(s) {
        Some(decimal_value(s.subrange(s.len() - trailing_digits(s), s.len() as int)))
    } else {
        None
    }
}

proof fn lemma_trailing_digits_bound(s: Seq<u8>)
    ensures
        trailing_digits(s) <= s.len(),
        forall|i: int| s.len() - trailing_digits(s) <= i < s.len() ==> is_digit(#[trigger] s[i]),
        trailing_digits(s) < s.len() ==> !is_digit(s[s.len() - trailing_digits(s) - 1]),
    decreases s.len(),
{
    if s.len() > 0 && is_digit(s.last()) {
        lemma_trailing_digits_bound(s.drop_last());
        assert forall|i: int| s.len() - trailing_digits(s) <= i < s.len() implies is_digit(
            #[trigger] s[i],
        ) by {
            if i < s.len() - 1 {
                assert(s[i] == s.drop_last()[i]);
            }
        }
        if trailing_digits(s) < s.len() {
            assert(s[s.len() - trailing_digits(s) - 1] == s.drop_last()[s.len() - trailing_digits(
                s,
            ) - 1]);
        }
    }
}

/// A name with a part suffix is longer than its stem.
pub proof fn lemma_suffix_len(s: Seq<u8>)
    requires
        has_part_suffix(s),
    ensures
        stem_of(s).len() < s.len(),
{
}

proof fn lemma_trailing_digits_append(a: Seq<u8>, d: Seq<u8>)
    requires
        a.len() > 0,
        !is_digit(a.last()),
        forall|i: int| 0 <= i < d.len() ==> is_digit(#[trigger] d[i]),
    ensures
        trailing_digits(a + d) == d.len(),
    decreases d.len(),
{
    if d.len() == 0 {
        assert(a + d =~= a);
    } else {
        assert((a + d).drop_last() =~= a + d.drop_last());
        lemma_trailing_digits_append(a, d.drop_last());
    }
}

proof fn lemma_decimal_digits(n: nat)
    ensures
        decimal_digits(n).len() >= 1,
        forall|i: int| 0 <= i < decimal_digits(n).len() ==> is_digit(#[trigger] decimal_digits(n)[i]),
    decreases n,
{
    if n >= 10 {
        lemma_decimal_digits(n / 10);
        let ds = decimal_digits(n / 10);
        assert forall|i: int| 0 <= i < decimal_digits(n).len() implies is_digit(
            #[trigger] decimal_digits(n)[i],
        ) by {
            if i < ds.len() {
                assert(decimal_digits(n)[i] == ds[i]);
            }
        }
    }
}

proof fn lemma_padded_decimal(n: nat, width: nat)
    ensures
        padded_decimal(n, width).len() >= 1,
        forall|i: int|
            0 <= i < padded_decimal(n, width).len() ==> is_digit(
                #[trigger] padded_decimal(n, width)[i],
            ),
{
    lemma_decimal_digits(n);
    let ds = decimal_digits(n);
    if ds.len() < width {
        let pad = Seq::new((width - ds.len()) as nat, |i: int| ZERO);
        assert forall|i: int| 0 <= i < padded_decimal(n, width).len() implies is_digit(
            #[trigger] padded_decimal(n, width)[i],
        ) by {
            if i >= pad.len() {
                assert(padded_decimal(n, width)[i] == ds[i - pad.len()]);
            }
        }
    }
}

/// Stripping the part suffix from the name of any part gives back the name
/// of the file it was cut from.
pub proof fn lemma_strip_part_name(original: Seq<u8>, ordinal: nat, width: nat)
    ensures
        has_part_suffix(part_name(original, ordinal, width)),
        stem_of(part_name(original, ordinal, width)) == original,
        ordinal_of(part_name(original, ordinal, width)) == Some(
            decimal_value(padded_decimal(ordinal, width)),
        ),
{
    let head = original + seq![DOT, PREFIX_BYTE];
    let ds = padded_decimal(ordinal, width);
    let name = part_name(original, ordinal, width);
    lemma_padded_decimal(ordinal, width);
    lemma_trailing_digits_append(head, ds);
    assert(name == head + ds);
    assert(name[name.len() - ds.len() - 1] == PREFIX_BYTE);
    assert(name[name.len() - ds.len() - 2] == DOT);
    assert(name.subrange(0, name.len() - ds.len() - 2) =~= original);
    assert(name.subrange(name.len() - ds.len(), name.len() as int) =~= ds);
}

fn push_decimal(out: &mut Vec<u8>, n: u64)
    ensures
        final(out)@ == old(out)@ + decimal_digits(n as nat),
    decreases n,
{
    if n >= 10 {
        push_decimal(out, n / 10);
    }
    out.push(ZERO + (n % 10) as u8);
    proof {
        if n >= 10 {
            assert(old(out)@ + decimal_digits(n as nat) =~= old(out)@ + decimal_digits(
                (n / 10) as nat,
            ) + seq![(ZERO + n % 10) as u8]);
        } else {
            assert(decimal_digits(n as nat) =~= seq![(ZERO + n % 10) as u8]);
        }
    }
}

/// The name of part `index` of the file at `original_path`: the path, a dot,
/// the prefix, and the index padded with zeros to `width` digits.
pub fn get_part_path_buf(original_path: &[u8], index: u64, width: usize) -> (r: Vec<u8>)
    ensures
        r@ == part_name(original_path@, index as nat, width as nat),
{
    let mut name: Vec<u8> = Vec::new();
    let mut i: usize = 0;
    while i < original_path.len()
        invariant
            i <= original_path@.len(),
            name@ == original_path@.subrange(0, i as int),
        decreases original_path@.len() - i,
    {
        name.push(original_path[i]);
        i = i + 1;
        proof {
            assert(name@ =~= original_path@.subrange(0, i as int));
        }
    }
    name.push(DOT);
    name.push(PREFIX_BYTE);
    let ghost head = name@;
    let mut digits_vec: Vec<u8> = Vec::new();
    push_decimal(&mut digits_vec, index);
    let count = digits_vec.len();
    if count < width {
        let mut pad: usize = 0;
        while pad < width - count
            invariant
                count < width,
                pad <= width - count,
                name@ == head + Seq::new(pad as nat, |j: int| ZERO),
            decreases width - count - pad,
        {
            name.push(ZERO);
            pad = pad + 1;
            proof {
                assert(name@ =~= head + Seq::new(pad as nat, |j: int| ZERO));
            }
        }
    }
    let ghost before = name@;
    let mut k: usize = 0;
    while k < count
        invariant
            count == digits_vec@.len(),
            k <= count,
            name@ == before + digits_vec@.subrange(0, k as int),
        decreases count - k,
    {
        name.push(digits_vec[k]);
        k = k + 1;
        proof {
            assert(name@ =~= before + digits_vec@.subrange(0, k as int));
        }
    }
    proof {
        assert(digits_vec@.subrange(0, count as int) =~= digits_vec@);
        assert(digits_vec@ =~= decimal_digits(index as nat));
        assert(name@ =~= part_name(original_path@, index as nat, width as nat));
    }
    name
}

/// The number of digits that `name` ends with.
fn count_trailing_digits(name: &[u8]) -> (r: usize)
    ensures
        r == trailing_digits(name@),
{
    let mut t: usize = 0;
    proof {
        assert(name@.subrange(0, name@.len() as int) =~= name@);
    }
    while t < name.len() && ZERO <= name[name.len() - 1 - t] && name[name.len() - 1 - t] <= ZERO + 9
        invariant
            t <= name@.len(),
            trailing_digits(name@) == t + trailing_digits(name@.subrange(0, name@.len() - t)),
        decreases name@.len() - t,
    {
        proof {
            let s = name@.subrange(0, name@.len() - t);
            assert(s.drop_last() =~= name@.subrange(0, name@.len() - t - 1));
        }
        t = t + 1;
    }
    proof {
        let s = name@.subrange(0, name@.len() - t);
        assert(s =~= name@.subrange(0, name@.len() - t));
        if t < name@.len() {
            assert(s.last() == name@[name@.len() - 1 - t]);
        }
    }
    t
}

/// Whether `name` ends with a part suffix.
fn has_suffix(name: &[u8], t: usize) -> (r: bool)
    requires
        t == trailing_digits(name@),
    ensures
        r == has_part_suffix(name@),
{
    proof {
        lemma_trailing_digits_bound(name@);
    }
    t >= 1 && name.len() - t >= 2 && name[name.len() - t - 1] == PREFIX_BYTE && name[name.len() - t
        - 2] == DOT
}

/// Whether `name` ends with a part suffix: a dot, the prefix, and one or
/// more digits, with nothing after them.
pub fn is_part_name(name: &[u8]) -> (r: bool)
    ensures
        r == has_part_suffix(name@),
{
    let t = count_trailing_digits(name);
    has_suffix(name, t)
}

/// `name` without its part suffix: the dot, the prefix and the digits after
/// its last dot are removed where they are all that follows it, and nothing
/// is removed otherwise.
pub fn remove_chopstick_extension(name: &[u8]) -> (r: Vec<u8>)
    ensures
        r@ == stem_of(name@),
{
    let t = count_trailing_digits(name);
    let end = if has_suffix(name, t) {
        name.len() - t - 2
    } else {
        name.len()
    };
    let mut stem: Vec<u8> = Vec::new();
    let mut i: usize = 0;
    while i < end
        invariant
            end <= name@.len(),
            i <= end,
            stem@ == name@.subrange(0, i as int),
        decreases end - i,
    {
        stem.push(name[i]);
        i = i + 1;
        proof {
            assert(stem@ =~= name@.subrange(0, i as int));
        }
    }
    proof {
        if !has_part_suffix(name@) {
            assert(name@.subrange(0, end as int) =~= name@);
        }
    }
    stem
}

/// The ordinal that the part suffix of `name` spells, leading zeros ignored;
/// `None` where `name` has no part suffix or the ordinal does not fit a `u64`.
pub fn part_ordinal(name: &[u8]) -> (r: Option<u64>)
    ensures
        r == match ordinal_of(name@) {
            Some(n) => if n <= u64::MAX {
                Some(n as u64)
            } else {
                None::<u64>
            },
            None => None::<u64>,
        },
{
    let t = count_trailing_digits(name);
    if !has_suffix(name, t) {
        return None;
    }
    proof {
        lemma_trailing_digits_bound(name@);
    }
    let start = name.len() - t;
    let ghost ds = name@.subrange(start as int, name@.len() as int);
    let mut value: u64 = 0;
    let mut j: usize = start;
    while j < name.len()
        invariant
            start <= j <= name@.len(),
            start == name@.len() - trailing_digits(name@),
            ds == name@.subrange(start as int, name@.len() as int),
            forall|i: int| start <= i < name@.len() ==> is_digit(#[trigger] name@[i]),
            value as nat == decimal_value(ds.subrange(0, j - start)),
        decreases name@.len() - j,
    {
        let d = (name[j] - ZERO) as u64;
        proof {
            assert(ds.subrange(0, j + 1 - start).drop_last() =~= ds.subrange(0, j - start));
            assert(ds.subrange(0, j + 1 - start).last() == name@[j as int]);
        }
        match value.checked_mul(10) {
            Some(tens) => match tens.checked_add(d) {
                Some(next) => {
                    value = next;
                },
                None => {
                    proof {
                        lemma_decimal_prefix_le(ds, j + 1 - start);
                    }
                    return None;
                },
            },
            None => {
                proof {
                    lemma_decimal_prefix_le(ds, j + 1 - start);
                }
                return None;
            },
        }
        j = j + 1;
    }
    proof {
        assert(ds.subrange(0, ds.len() as int) =~= ds);
    }
    Some(value)
}

proof fn lemma_decimal_prefix_le(ds: Seq<u8>, k: int)
    requires
        0 <= k <= ds.len(),
        forall|i: int| 0 <= i < ds.len() ==> is_digit(#[trigger] ds[i]),
    ensures
        decimal_value(ds.subrange(0, k)) <= decimal_value(ds),
    decreases ds.len() - k,
{
    if k < ds.len() {
        lemma_decimal_prefix_le(ds, k + 1);
        assert(ds.subrange(0, k + 1).drop_last() =~= ds.subrange(0, k));
    } else {
        assert(ds.subrange(0, k) =~= ds);
    }
}

} // verus!
