use vstd::prelude::*;

use crate::arith::{ceil_div, lemma_ceil_div, round_up_div};
use crate::error::ChopError;

verus! {

/// How a file is cut: `num_parts` parts of `part_size` bytes, the last of
/// which may be shorter.
#[derive(Debug, Copy, Clone, PartialEq, Eq, Structural)]
pub struct Split {
    pub part_size: u64,
    pub num_parts: u64,
}

/// The reconciliation of a requested divisor (a part size or a part count)
/// with `target` bytes: the second factor is `target / divisor` rounded up,
/// and the first is the divisor, lowered to one more than
/// `target / second` where it exceeds that.
pub open spec fn closest_factors(target: nat, divisor: nat) -> (nat, nat) {
    let second = ceil_div(target, divisor);
    let quotient = target / second;
    if quotient + 1 < divisor {
        (quotient + 1, second)
    } else {
        (divisor, second)
    }
}

/// The split made from a requested part size.
pub open spec fn split_by_part_size(file_size: nat, part_size: nat) -> Split {
    let (size, count) = closest_factors(file_size, part_size);
    Split { part_size: size as u64, num_parts: count as u64 }
}

/// The split made from a requested number of parts.
pub open spec fn split_by_num_parts(file_size: nat, num_parts: nat) -> Split {
    let (count, size) = closest_factors(file_size, num_parts);
    Split { part_size: size as u64, num_parts: count as u64 }
}

/// A requested part count for which the reconciliation keeps one part too
/// many: the parts before the last already hold every byte, so the last one
/// is empty.
pub open spec fn leaves_empty_part(file_size: nat, num_parts: nat) -> bool {
    let size = ceil_div(file_size, num_parts);
    &&& (file_size / size) + 1 <= num_parts
    &&& file_size % size == 0
}

impl Split {
    /// Every byte lies in one of the parts, and no part but possibly the
    /// last is cut short.
    pub open spec fn covers(self, file_size: nat) -> bool {
        &&& self.part_size >= 1
        &&& self.num_parts >= 1
        &&& self.part_size * (self.num_parts - 1) <= file_size
        &&& file_size <= self.part_size * self.num_parts
    }

    /// As `covers`, and the last part is not empty either.
    pub open spec fn valid_for(self, file_size: nat) -> bool {
        &&& self.part_size >= 1
        &&& self.num_parts >= 1
        &&& self.part_size * (self.num_parts - 1) < file_size
        &&& file_size <= self.part_size * self.num_parts
    }

    /// Plans the split for a requested part size. It fails when the size is
    /// not below the file size, since the file would not be split.
    pub fn from_part_size(file_size: u64, part_size: u64) -> (r: Result<Split, ChopError>)
        requires
            part_size > 0 || file_size == 0,
        ensures
            part_size >= file_size ==> r matches Err(ChopError::PartSizeTooLarge),
            part_size < file_size ==> r == Ok::<Split, ChopError>(
                split_by_part_size(file_size as nat, part_size as nat),
            ),
            r matches Ok(s) ==> s.valid_for(file_size as nat),
    {
        if part_size >= file_size {
            Err(ChopError::PartSizeTooLarge)
        } else {
            proof {
                lemma_closest_factors(file_size as nat, part_size as nat);
            }
            let (size, count) = Split::closest_factors_to(file_size, part_size);
            Ok(Split { part_size: size, num_parts: count })
        }
    }

    /// Plans the split for a requested number of parts. It fails when the
    /// count is not below the file size, since a part would then hold less
    /// than one byte on average.
    pub fn from_num_parts(file_size: u64, num_parts: u64) -> (r: Result<Split, ChopError>)
        requires
            num_parts > 0 || file_size == 0,
        ensures
            num_parts >= file_size ==> r matches Err(ChopError::NumPartsTooLarge),
            num_parts < file_size ==> r == Ok::<Split, ChopError>(
                split_by_num_parts(file_size as nat, num_parts as nat),
            ),
            r matches Ok(s) ==> s.covers(file_size as nat),
            r matches Ok(s) ==> (!leaves_empty_part(file_size as nat, num_parts as nat)
                ==> s.valid_for(file_size as nat)),
    {
        if num_parts >= file_size {
            Err(ChopError::NumPartsTooLarge)
        } else {
            proof {
                lemma_closest_factors(file_size as nat, num_parts as nat);
            }
            let (count, size) = Split::closest_factors_to(file_size, num_parts);
            Ok(Split { part_size: size, num_parts: count })
        }
    }

    /// Reconciles `divisor` with `target`, see `closest_factors`.
    pub fn closest_factors_to(target: u64, divisor: u64) -> (r: (u64, u64))
        requires
            0 < divisor,
            0 < target,
        ensures
            (r.0 as nat, r.1 as nat) == closest_factors(target as nat, divisor as nat),
    {
        proof {
            lemma_ceil_div(target as nat, divisor as nat);
        }
        let factor_two = round_up_div(target, divisor);
        let factor_one = divisor - (divisor - 1).saturating_sub(target / factor_two);
        (factor_one, factor_two)
    }
}

/// The offset of the first byte of the part with the given 1-based ordinal.
pub open spec fn part_start(split: Split, ordinal: nat) -> nat {
    ((ordinal - 1) * split.part_size) as nat
}

/// The offset one past the last byte of the part with the given ordinal.
pub open spec fn part_end(split: Split, file_size: nat, ordinal: nat) -> nat {
    let end = (part_start(split, ordinal) + split.part_size) as nat;
    if end < file_size {
        end
    } else {
        file_size
    }
}

/// The parts that `split` cuts `file` into, first part first.
pub open spec fn split_parts(file: Seq<u8>, split: Split) -> Seq<Seq<u8>> {
    Seq::new(
        split.num_parts as nat,
        |i: int|
            file.subrange(
                part_start(split, (i + 1) as nat) as int,
                part_end(split, file.len(), (i + 1) as nat) as int,
            ),
    )
}

/// The parts written one after the other.
pub open spec fn joined(parts: Seq<Seq<u8>>) -> Seq<u8>
    decreases parts.len(),
{
    if parts.len() == 0 {
        Seq::empty()
    } else {
        joined(parts.drop_last()) + parts.last()
    }
}

/// The byte range `[start, end)` of the part with the given ordinal.
pub fn part_range(split: Split, file_size: u64, ordinal: u64) -> (r: (u64, u64))
    requires
        split.covers(file_size as nat),
        1 <= ordinal <= split.num_parts,
    ensures
        r.0 == part_start(split, ordinal as nat),
        r.1 == part_end(split, file_size as nat, ordinal as nat),
        r.0 <= r.1,
{
    proof {
        assert((ordinal - 1) * split.part_size <= (split.num_parts - 1) * split.part_size)
            by (nonlinear_arith)
            requires
                ordinal <= split.num_parts,
                ordinal >= 1,
        ;
        assert(split.part_size * (split.num_parts - 1) == (split.num_parts - 1) * split.part_size)
            by (nonlinear_arith);
    }
    let start = (ordinal - 1) * split.part_size;
    let end = if file_size - start <= split.part_size {
        file_size
    } else {
        start + split.part_size
    };
    (start, end)
}

/// Every split planned from a request below the file size puts each byte in
/// exactly one part and cuts no part but the last one short; the last part is
/// never empty when the request was a part size, nor when it was a part count
/// other than those of `leaves_empty_part`.
pub proof fn lemma_split_invariants(file_size: u64, requested: u64)
    requires
        0 < requested < file_size,
    ensures
        split_by_part_size(file_size as nat, requested as nat).valid_for(file_size as nat),
        split_by_num_parts(file_size as nat, requested as nat).covers(file_size as nat),
        !leaves_empty_part(file_size as nat, requested as nat) ==> split_by_num_parts(
            file_size as nat,
            requested as nat,
        ).valid_for(file_size as nat),
{
    lemma_closest_factors(file_size as nat, requested as nat);
}

/// Writing the parts of a file one after the other, first part first, gives
/// the file back byte for byte.
pub proof fn lemma_round_trip(file: Seq<u8>, split: Split)
    requires
        split.covers(file.len()),
    ensures
        joined(split_parts(file, split)) == file,
{
    let parts = split_parts(file, split);
    lemma_joined_prefix(file, split, split.num_parts as nat);
    assert(parts.take(split.num_parts as int) =~= parts);
    assert(file.len() <= split.num_parts * split.part_size) by (nonlinear_arith)
        requires
            file.len() <= split.part_size * split.num_parts,
    ;
    assert(file.subrange(0, file.len() as int) =~= file);
}

/// Processing the parts from the last to the first, and cutting the source
/// back to the start of each part once it is written, never cuts away a byte
/// that a part still to come needs: each part ends where the next one starts,
/// the last part ends at the end of the file and the first starts at zero.
pub proof fn lemma_parts_adjoin(split: Split, file_size: nat, ordinal: nat)
    requires
        split.covers(file_size),
        1 <= ordinal <= split.num_parts,
    ensures
        part_start(split, 1) == 0,
        part_start(split, ordinal) <= part_end(split, file_size, ordinal) <= file_size,
        ordinal == split.num_parts ==> part_end(split, file_size, ordinal) == file_size,
        ordinal < split.num_parts ==> part_end(split, file_size, ordinal) == part_start(
            split,
            ordinal + 1,
        ),
{
    let ps = split.part_size as nat;
    let n = split.num_parts as nat;
    assert((ordinal - 1) * ps <= (n - 1) * ps) by (nonlinear_arith)
        requires
            ordinal <= n,
            ordinal >= 1,
    ;
    assert(((ordinal - 1) * ps) + ps == ordinal * ps) by (nonlinear_arith);
    assert(n * ps == (n - 1) * ps + ps) by (nonlinear_arith)
        requires
            n >= 1,
    ;
    assert(ps * n == n * ps) by (nonlinear_arith);
    assert(ps * (n - 1) == (n - 1) * ps) by (nonlinear_arith);
    if ordinal < n {
        assert(ordinal * ps <= (n - 1) * ps) by (nonlinear_arith)
            requires
                ordinal <= n - 1,
        ;
    }
}

/// What is left of the source once `done` parts have been written from the
/// last one down, each cut away once written.
pub open spec fn source_left(file: Seq<u8>, split: Split, done: nat) -> Seq<u8> {
    if done == 0 {
        file
    } else {
        file.subrange(0, part_start(split, (split.num_parts - done + 1) as nat) as int)
    }
}

/// Each part, read from what is left of the source when its turn comes, gets
/// exactly its bytes of the file: cutting the source back never takes bytes
/// that a part still to be written needs.
pub proof fn lemma_chop_reads_intact(file: Seq<u8>, split: Split, done: nat)
    requires
        split.covers(file.len()),
        done < split.num_parts,
    ensures
        ({
            let ordinal = (split.num_parts - done) as nat;
            let left = source_left(file, split, done);
            &&& part_end(split, file.len(), ordinal) == left.len()
            &&& left.subrange(
                part_start(split, ordinal) as int,
                part_end(split, file.len(), ordinal) as int,
            ) == split_parts(file, split)[ordinal - 1]
        }),
{
    let n = split.num_parts as nat;
    let ordinal = (n - done) as nat;
    lemma_parts_adjoin(split, file.len(), ordinal);
    if done > 0 {
        lemma_parts_adjoin(split, file.len(), (ordinal + 1) as nat);
    }
    let left = source_left(file, split, done);
    assert(left.subrange(
        part_start(split, ordinal) as int,
        part_end(split, file.len(), ordinal) as int,
    ) =~= file.subrange(
        part_start(split, ordinal) as int,
        part_end(split, file.len(), ordinal) as int,
    ));
}

proof fn lemma_joined_prefix(file: Seq<u8>, split: Split, k: nat)
    requires
        split.covers(file.len()),
        k <= split.num_parts,
    ensures
        joined(split_parts(file, split).take(k as int)) =~= file.subrange(
            0,
            if k * split.part_size < file.len() {
                k * split.part_size
            } else {
                file.len() as int
            },
        ),
    decreases k,
{
    let parts = split_parts(file, split);
    if k == 0 {
        assert(parts.take(0) =~= Seq::<Seq<u8>>::empty());
        assert(joined(parts.take(0)) == Seq::<u8>::empty());
        assert(file.subrange(0, 0) =~= Seq::<u8>::empty());
        assert(k * split.part_size == 0) by (nonlinear_arith)
            requires
                k == 0,
        ;
    } else {
        let ps = split.part_size as nat;
        lemma_joined_prefix(file, split, (k - 1) as nat);
        lemma_parts_adjoin(split, file.len(), k);
        assert(parts.take(k as int).drop_last() =~= parts.take(k - 1));
        assert((k - 1) * ps <= (split.num_parts - 1) * ps) by (nonlinear_arith)
            requires
                k <= split.num_parts,
                k >= 1,
        ;
        assert(ps * (split.num_parts - 1) == (split.num_parts - 1) * ps) by (nonlinear_arith);
        assert(((k - 1) * ps) + ps == k * ps) by (nonlinear_arith);
        assert(parts.take(k as int).last() == parts[k - 1]);
        let a = ((k - 1) * ps) as int;
        let b: int = if k * ps < file.len() {
            (k * ps) as int
        } else {
            file.len() as int
        };
        assert(parts[k - 1] == file.subrange(a, b));
        assert(joined(parts.take(k as int)) == joined(parts.take(k - 1)) + parts[k - 1]);
        assert(joined(parts.take(k - 1)) =~= file.subrange(0, a));
        assert(file.subrange(0, a) + file.subrange(a, b) =~= file.subrange(0, b));
        assert(k * ps == k * split.part_size);
    }
}

proof fn lemma_closest_factors(t: nat, d: nat)
    requires
        0 < d,
        0 < t,
    ensures
        ({
            let (one, two) = closest_factors(t, d);
            &&& 1 <= one <= d
            &&& 1 <= two <= t
            &&& one * (two - 1) < t
            &&& t <= one * two
            &&& t <= two * one
            &&& two * (one - 1) <= t
            &&& !leaves_empty_part(t, d) ==> two * (one - 1) < t
        }),
{
    lemma_ceil_div(t, d);
    let two = ceil_div(t, d);
    let q = t / two;
    let r = t % two;
    let one = closest_factors(t, d).0;
    assert(t == q * two + r && r < two) by (nonlinear_arith)
        requires
            two > 0,
            q == t / two,
            r == t % two,
    ;
    // the first factor times the second reaches the target
    if one == d {
        assert(t <= d * two) by (nonlinear_arith)
            requires
                t <= two * d,
        ;
    } else {
        assert(t <= (q + 1) * two) by (nonlinear_arith)
            requires
                t == q * two + r,
                r < two,
        ;
    }
    assert(one * two == two * one) by (nonlinear_arith);
    assert(two <= t) by (nonlinear_arith)
        requires
            (two - 1) * d < t,
            d >= 1,
            two >= 1,
    ;
    // one part fewer of the first factor falls short of it
    assert(one * (two - 1) <= d * (two - 1)) by (nonlinear_arith)
        requires
            one <= d,
            two >= 1,
    ;
    assert(d * (two - 1) < t) by (nonlinear_arith)
        requires
            (two - 1) * d < t,
    ;
    // and one fewer of the second factor does too
    assert(two * (one - 1) <= two * q) by (nonlinear_arith)
        requires
            one - 1 <= q,
            one >= 1,
    ;
    if !leaves_empty_part(t, d) {
        if one - 1 < q {
            assert(two * (one - 1) <= two * (q - 1)) by (nonlinear_arith)
                requires
                    one - 1 <= q - 1,
                    one >= 1,
                    q >= 1,
            ;
            assert(two * (q - 1) < t) by (nonlinear_arith)
                requires
                    t == q * two + r,
                    two >= 1,
                    q >= 1,
            ;
        }
    }
}

} // verus!
