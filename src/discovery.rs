use vstd::prelude::*;

use crate::naming::{
    decimal_digits, decimal_value, has_part_suffix, is_part_name, lemma_strip_part_name,
    ordinal_of, part_name, part_ordinal, remove_chopstick_extension, stem_of,
    ZERO,
};

verus! {

/// The byte that separates the components of a path.
pub const SLASH: u8 = 0x2f;

/// The contents of each name of a list.
pub open spec fn names_of(v: Seq<Vec<u8>>) -> Seq<Seq<u8>> {
    Seq::new(v.len(), |i: int| v[i]@)
}

/// `name` is a part of the file named `stem`.
pub open spec fn is_part_of(name: Seq<u8>, stem: Seq<u8>) -> bool {
    has_part_suffix(name) && stem_of(name) == stem
}

/// The entries of a listing that are parts of `stem`, in listing order.
pub open spec fn parts_in(listing: Seq<Seq<u8>>, stem: Seq<u8>) -> Seq<Seq<u8>>
    decreases listing.len(),
{
    if listing.len() == 0 {
        Seq::empty()
    } else {
        let rest = parts_in(listing.drop_last(), stem);
        if is_part_of(listing.last(), stem) {
            rest.push(listing.last())
        } else {
            rest
        }
    }
}

/// The i-th name of the list carries ordinal i + 1, for every i: the parts
/// start at one and leave no gap.
pub open spec fn is_complete_run(names: Seq<Seq<u8>>) -> bool {
    forall|i: int| 0 <= i < names.len() ==> ordinal_of(#[trigger] names[i]) == Some((i + 1) as nat)
}

/// `name` placed in the directory `dir`, as a path.
pub open spec fn path_in(dir: Seq<u8>, name: Seq<u8>) -> Seq<u8> {
    if dir.len() == 0 {
        name
    } else if dir.last() == SLASH {
        dir + name
    } else {
        dir + seq![SLASH] + name
    }
}

/// The path of the file named `name` in the directory `dir`.
pub fn join_path(dir: &[u8], name: &[u8]) -> (r: Vec<u8>)
    ensures
        r@ == path_in(dir@, name@),
{
    let mut path: Vec<u8> = Vec::new();
    let mut i: usize = 0;
    while i < dir.len()
        invariant
            i <= dir@.len(),
            path@ == dir@.subrange(0, i as int),
        decreases dir@.len() - i,
    {
        path.push(dir[i]);
        i = i + 1;
        proof {
            assert(path@ =~= dir@.subrange(0, i as int));
        }
    }
    proof {
        assert(dir@.subrange(0, dir@.len() as int) =~= dir@);
    }
    if dir.len() > 0 && dir[dir.len() - 1] != SLASH {
        path.push(SLASH);
    }
    let ghost head = path@;
    let mut j: usize = 0;
    while j < name.len()
        invariant
            j <= name@.len(),
            path@ == head + name@.subrange(0, j as int),
        decreases name@.len() - j,
    {
        path.push(name[j]);
        j = j + 1;
        proof {
            assert(path@ =~= head + name@.subrange(0, j as int));
        }
    }
    proof {
        assert(name@.subrange(0, name@.len() as int) =~= name@);
        assert(path@ =~= path_in(dir@, name@));
    }
    path
}

fn copy_name(name: &Vec<u8>) -> (r: Vec<u8>)
    ensures
        r@ == name@,
{
    let mut out: Vec<u8> = Vec::new();
    let mut i: usize = 0;
    while i < name.len()
        invariant
            i <= name@.len(),
            out@ == name@.subrange(0, i as int),
        decreases name@.len() - i,
    {
        out.push(name[i]);
        i = i + 1;
        proof {
            assert(out@ =~= name@.subrange(0, i as int));
        }
    }
    proof {
        assert(name@.subrange(0, name@.len() as int) =~= name@);
    }
    out
}

fn slices_equal(a: &[u8], b: &[u8]) -> (r: bool)
    ensures
        r == (a@ == b@),
{
    if a.len() != b.len() {
        return false;
    }
    let mut i: usize = 0;
    while i < a.len()
        invariant
            a@.len() == b@.len(),
            i <= a@.len(),
            a@.subrange(0, i as int) == b@.subrange(0, i as int),
        decreases a@.len() - i,
    {
        if a[i] != b[i] {
            return false;
        }
        i = i + 1;
        proof {
            assert(a@.subrange(0, i as int) =~= a@.subrange(0, i - 1).push(a@[i - 1]));
            assert(b@.subrange(0, i as int) =~= b@.subrange(0, i - 1).push(b@[i - 1]));
        }
    }
    proof {
        assert(a@.subrange(0, a@.len() as int) =~= a@);
        assert(b@.subrange(0, b@.len() as int) =~= b@);
    }
    true
}

/// The entries of `listing` that are parts of the file named `stem`: their
/// name ends in a part suffix, and removing it leaves `stem`. The order of
/// the listing is kept.
pub fn find_parts_in(listing: &Vec<Vec<u8>>, stem: &[u8]) -> (r: Vec<Vec<u8>>)
    ensures
        names_of(r@) == parts_in(names_of(listing@), stem@),
{
    let mut found: Vec<Vec<u8>> = Vec::new();
    let mut i: usize = 0;
    while i < listing.len()
        invariant
            i <= listing@.len(),
            names_of(found@) == parts_in(names_of(listing@).take(i as int), stem@),
        decreases listing@.len() - i,
    {
        let entry = &listing[i];
        let is_part = is_part_name(entry.as_slice()) && {
            let entry_stem = remove_chopstick_extension(entry.as_slice());
            slices_equal(entry_stem.as_slice(), stem)
        };
        proof {
            assert(names_of(listing@).take(i + 1).drop_last() =~= names_of(listing@).take(
                i as int,
            ));
            assert(names_of(listing@).take(i + 1).last() == entry@);
        }
        if is_part {
            let copy = copy_name(entry);
            found.push(copy);
            proof {
                assert(names_of(found@) =~= names_of(found@).drop_last().push(copy@));
                assert(names_of(found@).drop_last() =~= parts_in(
                    names_of(listing@).take(i as int),
                    stem@,
                ));
            }
        }
        i = i + 1;
    }
    proof {
        assert(names_of(listing@).take(listing@.len() as int) =~= names_of(listing@));
    }
    found
}

/// Whether the i-th name of `part_names` carries the ordinal i + 1, for
/// every i.
pub fn verify_discovered_parts(part_names: &Vec<Vec<u8>>) -> (r: bool)
    ensures
        r == is_complete_run(names_of(part_names@)),
{
    let mut i: usize = 0;
    while i < part_names.len()
        invariant
            i <= part_names@.len(),
            forall|j: int|
                0 <= j < i ==> ordinal_of(#[trigger] names_of(part_names@)[j]) == Some(
                    (j + 1) as nat,
                ),
        decreases part_names@.len() - i,
    {
        let ordinal = part_ordinal(part_names[i].as_slice());
        let expected: u64 = (i as u64) + 1;
        match ordinal {
            Some(n) => {
                if n != expected {
                    proof {
                        assert(names_of(part_names@)[i as int] == part_names@[i as int]@);
                    }
                    return false;
                }
            },
            None => {
                proof {
                    assert(names_of(part_names@)[i as int] == part_names@[i as int]@);
                }
                return false;
            },
        }
        proof {
            assert(names_of(part_names@)[i as int] == part_names@[i as int]@);
        }
        i = i + 1;
    }
    true
}

proof fn lemma_decimal_digits_value(n: nat)
    ensures
        decimal_value(decimal_digits(n)) == n,
    decreases n,
{
    if n >= 10 {
        lemma_decimal_digits_value(n / 10);
        assert(decimal_digits(n).drop_last() =~= decimal_digits(n / 10));
        assert(decimal_digits(n).last() - ZERO == n % 10);
        assert((n / 10) * 10 + n % 10 == n);
        let ds = decimal_digits(n);
        assert(decimal_value(ds) == decimal_value(ds.drop_last()) * 10 + (ds.last() - ZERO) as nat);
    } else {
        let ds = decimal_digits(n);
        assert(ds.drop_last() =~= Seq::<u8>::empty());
        assert(decimal_value(ds.drop_last()) == 0);
        assert(ds.last() - ZERO == n);
        assert(decimal_value(ds) == decimal_value(ds.drop_last()) * 10 + (ds.last() - ZERO) as nat);
    }
}

proof fn lemma_zeros_value(z: nat)
    ensures
        decimal_value(Seq::new(z, |i: int| ZERO)) == 0,
    decreases z,
{
    if z > 0 {
        lemma_zeros_value((z - 1) as nat);
        assert(Seq::new(z, |i: int| ZERO).drop_last() =~= Seq::new((z - 1) as nat, |i: int| ZERO));
    }
}

proof fn lemma_leading_zeros_value(z: nat, ds: Seq<u8>)
    ensures
        decimal_value(Seq::new(z, |i: int| ZERO) + ds) == decimal_value(ds),
    decreases ds.len(),
{
    let zeros = Seq::new(z, |i: int| ZERO);
    if ds.len() == 0 {
        assert(zeros + ds =~= zeros);
        lemma_zeros_value(z);
    } else {
        lemma_leading_zeros_value(z, ds.drop_last());
        assert((zeros + ds).drop_last() =~= zeros + ds.drop_last());
    }
}

/// The ordinal spelled by a part name is the one it was made with, however
/// wide the padding.
pub proof fn lemma_part_name_ordinal(stem: Seq<u8>, ordinal: nat, width: nat)
    ensures
        is_part_of(part_name(stem, ordinal, width), stem),
        ordinal_of(part_name(stem, ordinal, width)) == Some(ordinal),
{
    lemma_strip_part_name(stem, ordinal, width);
    lemma_decimal_digits_value(ordinal);
    let ds = decimal_digits(ordinal);
    if ds.len() < width {
        lemma_leading_zeros_value((width - ds.len()) as nat, ds);
    }
}

proof fn lemma_parts_in_all(listing: Seq<Seq<u8>>, stem: Seq<u8>)
    requires
        forall|i: int| 0 <= i < listing.len() ==> is_part_of(#[trigger] listing[i], stem),
    ensures
        parts_in(listing, stem) == listing,
    decreases listing.len(),
{
    if listing.len() > 0 {
        let rest = listing.drop_last();
        assert forall|i: int| 0 <= i < rest.len() implies is_part_of(#[trigger] rest[i], stem) by {
            assert(rest[i] == listing[i]);
        }
        lemma_parts_in_all(rest, stem);
        assert(rest.push(listing.last()) =~= listing);
    }
}

proof fn lemma_parts_in_interleaved(
    listing: Seq<Seq<u8>>,
    stem: Seq<u8>,
    names: Seq<Seq<u8>>,
    pos: Seq<int>,
)
    requires
        pos.len() == names.len(),
        forall|i: int| 0 <= i < pos.len() ==> 0 <= #[trigger] pos[i] < listing.len(),
        forall|i: int, j: int| 0 <= i < j < pos.len() ==> pos[i] < pos[j],
        forall|i: int|
            0 <= i < pos.len() ==> listing[#[trigger] pos[i]] == names[i] && is_part_of(
                names[i],
                stem,
            ),
        forall|m: int|
            0 <= m < listing.len() && (forall|i: int| 0 <= i < pos.len() ==> pos[i] != m)
                ==> !is_part_of(#[trigger] listing[m], stem),
    ensures
        parts_in(listing, stem) == names,
    decreases listing.len(),
{
    if listing.len() == 0 {
        if pos.len() > 0 {
            assert(0 <= pos[0] < listing.len());
        }
        assert(names =~= Seq::<Seq<u8>>::empty());
    } else {
        let last = listing.len() - 1;
        let rest = listing.drop_last();
        if pos.len() > 0 && pos.last() == last {
            let pos2 = pos.drop_last();
            let names2 = names.drop_last();
            assert forall|i: int| 0 <= i < pos2.len() implies 0 <= #[trigger] pos2[i] < rest.len() by {
                assert(pos[i] < pos[pos.len() - 1]);
            }
            assert forall|m: int|
                0 <= m < rest.len() && (forall|i: int| 0 <= i < pos2.len() ==> pos2[i] != m)
                    implies !is_part_of(#[trigger] rest[m], stem) by {
                assert(rest[m] == listing[m]);
                assert forall|i: int| 0 <= i < pos.len() implies pos[i] != m by {
                    if i < pos2.len() {
                        assert(pos2[i] != m);
                    }
                }
            }
            assert forall|i: int| 0 <= i < pos2.len() implies rest[#[trigger] pos2[i]]
                == names2[i] && is_part_of(names2[i], stem) by {
                assert(pos[i] < pos[pos.len() - 1]);
                assert(listing[pos[i]] == names[i]);
            }
            lemma_parts_in_interleaved(rest, stem, names2, pos2);
            assert(listing.last() == names.last());
            assert(names2.push(names.last()) =~= names);
        } else {
            assert forall|i: int| 0 <= i < pos.len() implies 0 <= #[trigger] pos[i] < rest.len() by {
                if pos[i] == last {
                    assert(pos[i] <= pos[pos.len() - 1]) by {
                        if i < pos.len() - 1 {
                            assert(pos[i] < pos[pos.len() - 1]);
                        }
                    }
                }
            }
            assert forall|m: int|
                0 <= m < rest.len() && (forall|i: int| 0 <= i < pos.len() ==> pos[i] != m)
                    implies !is_part_of(#[trigger] rest[m], stem) by {
                assert(rest[m] == listing[m]);
            }
            assert forall|i: int| 0 <= i < pos.len() implies rest[#[trigger] pos[i]] == names[i]
                && is_part_of(names[i], stem) by {
                assert(listing[pos[i]] == names[i]);
            }
            assert forall|i: int| 0 <= i < pos.len() implies pos[i] != last by {
                if pos[i] == last {
                    if i < pos.len() - 1 {
                        assert(pos[i] < pos[pos.len() - 1]);
                    }
                }
            }
            assert(!is_part_of(listing[last], stem));
            lemma_parts_in_interleaved(rest, stem, names, pos);
        }
    }
}

/// A listing in which parts 1 to `count` of `stem` stand in ascending order
/// at the positions `pos`, and no other entry is a part of `stem`, is found
/// to hold exactly those parts, and they pass verification. With any one
/// part but the last left out of the listing, the parts found fail it.
pub proof fn lemma_discovery_among_other_files(
    listing: Seq<Seq<u8>>,
    stem: Seq<u8>,
    count: nat,
    width: nat,
    pos: Seq<int>,
)
    requires
        pos.len() == count,
        forall|i: int| 0 <= i < pos.len() ==> 0 <= #[trigger] pos[i] < listing.len(),
        forall|i: int, j: int| 0 <= i < j < pos.len() ==> pos[i] < pos[j],
        forall|i: int|
            0 <= i < pos.len() ==> listing[#[trigger] pos[i]] == part_name(
                stem,
                (i + 1) as nat,
                width,
            ),
        forall|m: int|
            0 <= m < listing.len() && (forall|i: int| 0 <= i < pos.len() ==> pos[i] != m)
                ==> !is_part_of(#[trigger] listing[m], stem),
    ensures
        parts_in(listing, stem) == part_names(stem, count, width),
        is_complete_run(parts_in(listing, stem)),
        forall|missing: int|
            0 <= missing && missing + 1 < count ==> !is_complete_run(
                #[trigger] parts_in(listing.remove(pos[missing]), stem),
            ),
{
    let names = part_names(stem, count, width);
    assert forall|i: int| 0 <= i < pos.len() implies listing[#[trigger] pos[i]] == names[i]
        && is_part_of(names[i], stem) by {
        lemma_part_name_ordinal(stem, (i + 1) as nat, width);
    }
    lemma_parts_in_interleaved(listing, stem, names, pos);
    if count >= 2 {
        lemma_discovery_complete(stem, count, width, 0);
    } else if count == 1 {
        lemma_part_name_ordinal(stem, 1, width);
        assert(is_complete_run(names));
    } else {
        assert(is_complete_run(names));
    }
    assert forall|missing: int| 0 <= missing && missing + 1 < count implies !is_complete_run(
        #[trigger] parts_in(listing.remove(pos[missing]), stem),
    ) by {
        let p = pos[missing];
        let fewer = listing.remove(p);
        let pos2 = Seq::new(
            (count - 1) as nat,
            |i: int| if i < missing { pos[i] } else { pos[i + 1] - 1 },
        );
        let names2 = names.remove(missing);
        assert forall|i: int| 0 <= i < pos2.len() implies 0 <= #[trigger] pos2[i] < fewer.len() by {
            if i >= missing {
                assert(pos[i + 1] > pos[missing]);
            } else {
                assert(pos[i] < pos[missing]);
            }
        }
        assert forall|i: int, j: int| 0 <= i < j < pos2.len() implies pos2[i] < pos2[j] by {
            if i < missing && j >= missing {
                assert(pos[i] < pos[missing]);
                assert(pos[missing] < pos[j + 1]);
            } else if i >= missing {
                assert(pos[i + 1] < pos[j + 1]);
            }
        }
        assert forall|i: int| 0 <= i < pos2.len() implies fewer[#[trigger] pos2[i]] == names2[i]
            && is_part_of(names2[i], stem) by {
            if i < missing {
                assert(pos[i] < p);
                assert(fewer[pos[i]] == listing[pos[i]]);
            } else {
                assert(pos[i + 1] > p);
                assert(fewer[pos[i + 1] - 1] == listing[pos[i + 1]]);
            }
        }
        assert forall|m: int|
            0 <= m < fewer.len() && (forall|i: int| 0 <= i < pos2.len() ==> pos2[i] != m)
                implies !is_part_of(#[trigger] fewer[m], stem) by {
            let orig = if m < p { m } else { m + 1 };
            assert(fewer[m] == listing[orig]);
            assert forall|i: int| 0 <= i < pos.len() implies pos[i] != orig by {
                if i < missing {
                    assert(pos2[i] != m);
                    assert(pos[i] < p);
                } else if i > missing {
                    assert(pos2[i - 1] != m);
                    assert(pos[i] > p);
                }
            }
        }
        lemma_parts_in_interleaved(fewer, stem, names2, pos2);
        lemma_discovery_complete(stem, count, width, missing as nat);
    }
}

/// The names of parts 1 to `count` of the file named `stem`, padded to
/// `width` digits, in the order that a listing sorted by name gives them.
pub open spec fn part_names(stem: Seq<u8>, count: nat, width: nat) -> Seq<Seq<u8>> {
    Seq::new(count, |i: int| part_name(stem, (i + 1) as nat, width))
}

/// A listing of exactly parts 1 to `count` of `stem` is found whole and
/// passes verification; with any one part but the last taken out, what is
/// found is all that is left, and it fails verification.
pub proof fn lemma_discovery_complete(stem: Seq<u8>, count: nat, width: nat, missing: nat)
    requires
        missing + 1 < count,
    ensures
        parts_in(part_names(stem, count, width), stem) == part_names(stem, count, width),
        is_complete_run(part_names(stem, count, width)),
        parts_in(part_names(stem, count, width).remove(missing as int), stem) == part_names(
            stem,
            count,
            width,
        ).remove(missing as int),
        !is_complete_run(part_names(stem, count, width).remove(missing as int)),
{
    let names = part_names(stem, count, width);
    assert forall|i: int| 0 <= i < names.len() implies is_part_of(#[trigger] names[i], stem)
        && ordinal_of(names[i]) == Some((i + 1) as nat) by {
        lemma_part_name_ordinal(stem, (i + 1) as nat, width);
    }
    lemma_parts_in_all(names, stem);
    let fewer = names.remove(missing as int);
    assert forall|i: int| 0 <= i < fewer.len() implies is_part_of(#[trigger] fewer[i], stem) by {
        if i < missing {
            assert(fewer[i] == names[i]);
        } else {
            assert(fewer[i] == names[i + 1]);
        }
    }
    lemma_parts_in_all(fewer, stem);
    assert(fewer[missing as int] == names[missing + 1int]);
    assert(ordinal_of(fewer[missing as int]) == Some((missing + 2) as nat));
}

} // verus!
