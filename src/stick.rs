use vstd::prelude::*;

use crate::discovery::{
    find_parts_in, is_complete_run, is_part_of, join_path, names_of, parts_in, path_in,
    verify_discovered_parts,
};
use crate::error::StickError;
use crate::naming::{lemma_suffix_len, remove_chopstick_extension, stem_of};
use crate::split::{joined, lemma_round_trip, split_parts, Split};

verus! {

/// Everything that putting one file back together needs to know.
#[derive(Debug)]
pub struct RunConfig {
    /// Where the file is rebuilt.
    pub original_file: Vec<u8>,
    /// The parts, first part first.
    pub part_paths: Vec<Vec<u8>>,
    pub retain: bool,
    pub verbose: bool,
    pub dry_run: bool,
}

/// The paths of `names` in the directory `dir`.
pub open spec fn paths_in(dir: Seq<u8>, names: Seq<Seq<u8>>) -> Seq<Seq<u8>> {
    Seq::new(names.len(), |i: int| path_in(dir, names[i]))
}

/// One file operation of rebuilding a file from its parts. A part is named
/// by its index in `RunConfig::part_paths`.
#[derive(Debug, Copy, Clone, PartialEq, Eq, Structural)]
pub enum JoinStep {
    /// Rename the part to the file being rebuilt.
    RenameInto(usize),
    /// Create the file being rebuilt, empty.
    CreateEmpty,
    /// Append the contents of the part to the file being rebuilt.
    Append(usize),
    /// Delete the part.
    Delete(usize),
}

/// The steps that rebuild a file from its first `n` parts. Where the parts
/// are removed, the first is renamed into place, which saves copying it, and
/// every other part is appended and then deleted. Where they are kept, the
/// file is created empty and every part is appended.
pub open spec fn join_plan(n: nat, retain: bool) -> Seq<JoinStep>
    decreases n,
{
    if retain {
        if n == 0 {
            seq![JoinStep::CreateEmpty]
        } else {
            join_plan((n - 1) as nat, true).push(JoinStep::Append((n - 1) as usize))
        }
    } else {
        if n <= 1 {
            seq![JoinStep::RenameInto(0)]
        } else {
            join_plan((n - 1) as nat, false).push(JoinStep::Append((n - 1) as usize)).push(
                JoinStep::Delete((n - 1) as usize),
            )
        }
    }
}

/// The files, by path, once `step` has acted on them; `target` is the path
/// of the file being rebuilt and `parts` the paths of the parts.
pub open spec fn apply_step(
    files: Map<Seq<u8>, Seq<u8>>,
    target: Seq<u8>,
    parts: Seq<Seq<u8>>,
    step: JoinStep,
) -> Map<Seq<u8>, Seq<u8>> {
    match step {
        JoinStep::RenameInto(i) => files.remove(parts[i as int]).insert(
            target,
            files[parts[i as int]],
        ),
        JoinStep::CreateEmpty => files.insert(target, Seq::empty()),
        JoinStep::Append(i) => files.insert(target, files[target] + files[parts[i as int]]),
        JoinStep::Delete(i) => files.remove(parts[i as int]),
    }
}

/// The files, by path, once `steps` have acted on them in order.
pub open spec fn apply_steps(
    files: Map<Seq<u8>, Seq<u8>>,
    target: Seq<u8>,
    parts: Seq<Seq<u8>>,
    steps: Seq<JoinStep>,
) -> Map<Seq<u8>, Seq<u8>>
    decreases steps.len(),
{
    if steps.len() == 0 {
        files
    } else {
        apply_step(apply_steps(files, target, parts, steps.drop_last()), target, parts, steps.last())
    }
}

/// The paths of the parts are all different, and none is the path of the
/// file being rebuilt.
pub open spec fn distinct_paths(target: Seq<u8>, parts: Seq<Seq<u8>>) -> bool {
    &&& forall|i: int, j: int| 0 <= i < j < parts.len() ==> parts[i] != parts[j]
    &&& forall|i: int| 0 <= i < parts.len() ==> parts[i] != target
}

impl RunConfig {
    pub open spec fn wf(&self) -> bool {
        &&& self.part_paths@.len() >= 1
        &&& distinct_paths(self.original_file@, names_of(self.part_paths@))
    }

    /// The file operations that rebuild the file, in order; see `join_plan`.
    pub fn join_steps(&self) -> (r: Vec<JoinStep>)
        requires
            self.wf(),
        ensures
            r@ == join_plan(self.part_paths@.len(), self.retain),
    {
        let n = self.part_paths.len();
        let mut steps: Vec<JoinStep> = Vec::new();
        let mut i: usize;
        if self.retain {
            steps.push(JoinStep::CreateEmpty);
            i = 0;
        } else {
            steps.push(JoinStep::RenameInto(0));
            i = 1;
        }
        proof {
            assert(steps@ =~= join_plan(i as nat, self.retain));
        }
        while i < n
            invariant
                n == self.part_paths@.len(),
                1 <= n,
                i <= n,
                self.retain || i >= 1,
                steps@ == join_plan(i as nat, self.retain),
            decreases n - i,
        {
            steps.push(JoinStep::Append(i));
            if !self.retain {
                steps.push(JoinStep::Delete(i));
            }
            i = i + 1;
        }
        steps
    }

    /// The configuration for rebuilding the file that `file_name` names,
    /// with or without a part suffix, from its parts among the entries of
    /// `directory` (`listing`, sorted by name). It fails when no entry is a
    /// part of that file, and when the parts found do not run from one
    /// upwards without a gap; that error lists the names found. A dry run is
    /// always verbose.
    pub fn new(
        file_name: &[u8],
        directory: &[u8],
        listing: &Vec<Vec<u8>>,
        retain: bool,
        verbose: bool,
        dry_run: bool,
    ) -> (r: Result<RunConfig, StickError>)
        ensures
            ({
                let stem = stem_of(file_name@);
                let found = parts_in(names_of(listing@), stem);
                &&& found.len() == 0 ==> (r matches Err(StickError::NoParts))
                &&& found.len() > 0 && !is_complete_run(found) ==> (r matches Err(
                    StickError::IncompleteParts(names),
                ) && names_of(names@) == found)
                &&& found.len() > 0 && is_complete_run(found) ==> (r matches Ok(c) && {
                    &&& c.wf()
                    &&& c.original_file@ == path_in(directory@, stem)
                    &&& names_of(c.part_paths@) == paths_in(directory@, found)
                    &&& c.retain == retain
                    &&& c.dry_run == dry_run
                    &&& c.verbose == (verbose || dry_run)
                })
            }),
    {
        let stem = remove_chopstick_extension(file_name);
        let found = find_parts_in(listing, stem.as_slice());
        if found.len() == 0 {
            return Err(StickError::NoParts);
        }
        if !verify_discovered_parts(&found) {
            return Err(StickError::IncompleteParts(found));
        }
        let original_file = join_path(directory, stem.as_slice());
        let mut part_paths: Vec<Vec<u8>> = Vec::new();
        let mut i: usize = 0;
        while i < found.len()
            invariant
                i <= found@.len(),
                names_of(part_paths@) == paths_in(directory@, names_of(found@).take(i as int)),
            decreases found@.len() - i,
        {
            let path = join_path(directory, found[i].as_slice());
            let ghost before = part_paths@;
            part_paths.push(path);
            proof {
                assert(names_of(part_paths@) =~= names_of(before).push(path@));
                assert(names_of(found@).take(i + 1) =~= names_of(found@).take(i as int).push(
                    found@[i as int]@,
                ));
            }
            i = i + 1;
            proof {
                assert(names_of(part_paths@) =~= paths_in(
                    directory@,
                    names_of(found@).take(i as int),
                ));
            }
        }
        proof {
            assert(names_of(found@).take(found@.len() as int) =~= names_of(found@));
            lemma_found_paths_distinct(directory@, stem@, names_of(listing@));
        }
        Ok(RunConfig { original_file, part_paths, retain, verbose: dry_run || verbose, dry_run })
    }

    /// The free space that rebuilding needs, given the sizes of the first and
    /// the last part: the first part is renamed into place where parts are
    /// removed as they are used, so only the others need room; all of them do
    /// where the parts are kept.
    pub fn space_needed(&self, first_len: u64, last_len: u64) -> (r: u64)
        requires
            self.part_paths@.len() >= 1,
        ensures
            r == if self.retain {
                total_size(first_len as nat, last_len as nat, self.part_paths@.len())
            } else {
                first_len as nat
            },
    {
        if self.retain {
            total_part_size(first_len, last_len, self.part_paths.len() as u64)
        } else {
            first_len
        }
    }
}

/// What the files of the parts held, first part first.
pub open spec fn part_contents(files: Map<Seq<u8>, Seq<u8>>, parts: Seq<Seq<u8>>) -> Seq<Seq<u8>> {
    Seq::new(parts.len(), |i: int| files[parts[i]])
}

/// Carrying out the steps of `join_plan` on files that hold the parts, and
/// not yet the file being rebuilt, leaves that file holding the contents of
/// the parts one after the other, first part first. Where the parts are
/// removed none is left; where they are kept they are unchanged. No other
/// file is touched.
pub proof fn lemma_join_rebuilds(
    files: Map<Seq<u8>, Seq<u8>>,
    target: Seq<u8>,
    parts: Seq<Seq<u8>>,
    retain: bool,
)
    requires
        1 <= parts.len() <= usize::MAX,
        distinct_paths(target, parts),
        forall|i: int| 0 <= i < parts.len() ==> files.dom().contains(#[trigger] parts[i]),
        !files.dom().contains(target),
    ensures
        ({
            let after = apply_steps(files, target, parts, join_plan(parts.len(), retain));
            &&& after.dom().contains(target)
            &&& after[target] == joined(part_contents(files, parts))
            &&& forall|i: int|
                0 <= i < parts.len() ==> (after.dom().contains(#[trigger] parts[i]) <==> retain)
            &&& retain ==> forall|i: int|
                0 <= i < parts.len() ==> after[#[trigger] parts[i]] == files[parts[i]]
            &&& forall|path: Seq<u8>|
                path != target && !parts.contains(path) ==> (#[trigger] after.dom().contains(path)
                    == files.dom().contains(path) && after[path] == files[path])
        }),
{
    lemma_join_prefix(files, target, parts, retain, parts.len());
    assert(part_contents(files, parts).take(parts.len() as int) =~= part_contents(files, parts));
}

/// Rebuilding a file from the parts that a split cut it into gives the file
/// back byte for byte, and no part is left behind unless the parts are kept.
pub proof fn lemma_split_join_round_trip(
    file: Seq<u8>,
    split: Split,
    files: Map<Seq<u8>, Seq<u8>>,
    target: Seq<u8>,
    parts: Seq<Seq<u8>>,
    retain: bool,
)
    requires
        split.covers(file.len()),
        parts.len() == split.num_parts,
        parts.len() <= usize::MAX,
        distinct_paths(target, parts),
        forall|i: int|
            0 <= i < parts.len() ==> files.dom().contains(#[trigger] parts[i]) && files[parts[i]]
                == split_parts(file, split)[i],
        !files.dom().contains(target),
    ensures
        ({
            let after = apply_steps(files, target, parts, join_plan(parts.len(), retain));
            &&& after.dom().contains(target)
            &&& after[target] == file
            &&& forall|i: int|
                0 <= i < parts.len() ==> (after.dom().contains(#[trigger] parts[i]) <==> retain)
        }),
{
    lemma_join_rebuilds(files, target, parts, retain);
    lemma_round_trip(file, split);
    assert(part_contents(files, parts) =~= split_parts(file, split));
}

spec fn join_state(
    files: Map<Seq<u8>, Seq<u8>>,
    target: Seq<u8>,
    parts: Seq<Seq<u8>>,
    retain: bool,
    k: nat,
    after: Map<Seq<u8>, Seq<u8>>,
) -> bool {
    &&& after.dom().contains(target)
    &&& after[target] == joined(part_contents(files, parts).take(k as int))
    &&& forall|i: int| 0 <= i < k ==> (after.dom().contains(#[trigger] parts[i]) <==> retain)
    &&& retain ==> forall|i: int| 0 <= i < k ==> after[#[trigger] parts[i]] == files[parts[i]]
    &&& forall|i: int|
        k <= i < parts.len() ==> after.dom().contains(#[trigger] parts[i]) && after[parts[i]]
            == files[parts[i]]
    &&& forall|path: Seq<u8>|
        path != target && !parts.contains(path) ==> (#[trigger] after.dom().contains(path)
            == files.dom().contains(path) && after[path] == files[path])
}

proof fn lemma_join_prefix(
    files: Map<Seq<u8>, Seq<u8>>,
    target: Seq<u8>,
    parts: Seq<Seq<u8>>,
    retain: bool,
    k: nat,
)
    requires
        1 <= parts.len() <= usize::MAX,
        k <= parts.len(),
        retain || k >= 1,
        distinct_paths(target, parts),
        forall|i: int| 0 <= i < parts.len() ==> files.dom().contains(#[trigger] parts[i]),
        !files.dom().contains(target),
    ensures
        join_state(files, target, parts, retain, k, apply_steps(files, target, parts, join_plan(k, retain))),
    decreases k,
{
    let contents = part_contents(files, parts);
    let plan = join_plan(k, retain);
    let after = apply_steps(files, target, parts, plan);
    if retain && k == 0 {
        assert(plan == seq![JoinStep::CreateEmpty]);
        assert(plan.drop_last() =~= Seq::<JoinStep>::empty());
        assert(apply_steps(files, target, parts, plan.drop_last()) == files);
        assert(plan.last() == JoinStep::CreateEmpty);
        assert(after == files.insert(target, Seq::empty()));
        assert(contents.take(0) =~= Seq::<Seq<u8>>::empty());
        assert forall|i: int| k <= i < parts.len() implies after.dom().contains(
            #[trigger] parts[i],
        ) && after[parts[i]] == files[parts[i]] by {
            assert(parts[i] != target);
        }
        assert(join_state(files, target, parts, retain, k, after));
    } else if !retain && k == 1 {
        assert(plan == seq![JoinStep::RenameInto(0)]);
        assert(plan.drop_last() =~= Seq::<JoinStep>::empty());
        assert(apply_steps(files, target, parts, plan.drop_last()) == files);
        assert(plan.last() == JoinStep::RenameInto(0));
        assert(after == files.remove(parts[0]).insert(target, files[parts[0]]));
        assert(contents.take(1).drop_last() =~= Seq::<Seq<u8>>::empty());
        assert(joined(contents.take(1)) == joined(contents.take(1).drop_last()) + contents.take(
            1,
        ).last());
        assert forall|path: Seq<u8>| path != target && !parts.contains(path) implies (
        #[trigger] after.dom().contains(path) == files.dom().contains(path) && after[path]
            == files[path]) by {
            assert(path != parts[0]) by {
                if path == parts[0] {
                    assert(parts.contains(parts[0]));
                }
            }
        }
        assert forall|i: int| k <= i < parts.len() implies after.dom().contains(
            #[trigger] parts[i],
        ) && after[parts[i]] == files[parts[i]] by {
            assert(parts[i] != target);
            assert(parts[0] != parts[i]);
        }
        assert(parts[0] != target);
        assert(!after.dom().contains(parts[0]));
        assert(join_state(files, target, parts, retain, k, after));
    } else {
        let prev_plan = join_plan((k - 1) as nat, retain);
        lemma_join_prefix(files, target, parts, retain, (k - 1) as nat);
        let prev = apply_steps(files, target, parts, prev_plan);
        assert(join_state(files, target, parts, retain, (k - 1) as nat, prev));
        let appended = apply_step(prev, target, parts, JoinStep::Append((k - 1) as usize));
        assert(contents.take(k as int).drop_last() =~= contents.take(k - 1));
        assert(contents.take(k as int).last() == files[parts[k - 1]]);
        assert(prev[parts[k - 1]] == files[parts[k - 1]]);
        if retain {
            assert(plan.drop_last() =~= prev_plan);
            assert(after == appended);
        } else {
            let with_append = prev_plan.push(JoinStep::Append((k - 1) as usize));
            assert(plan.drop_last() =~= with_append);
            assert(with_append.drop_last() =~= prev_plan);
            assert(with_append.last() == JoinStep::Append((k - 1) as usize));
            assert(apply_steps(files, target, parts, with_append) == appended);
            assert(plan.last() == JoinStep::Delete((k - 1) as usize));
            assert(apply_steps(files, target, parts, plan.drop_last()) == appended);
            assert(after == appended.remove(parts[k - 1]));
            assert(parts[k - 1] != target);
        }
        assert(joined(contents.take(k as int)) == joined(contents.take(k as int).drop_last())
            + contents.take(k as int).last());
        assert(after[target] == prev[target] + files[parts[k - 1]]);
        assert forall|path: Seq<u8>| path != target && !parts.contains(path) implies (
        #[trigger] after.dom().contains(path) == files.dom().contains(path) && after[path]
            == files[path]) by {
            assert(path != parts[k - 1]) by {
                if path == parts[k - 1] {
                    assert(parts.contains(parts[k - 1]));
                }
            }
            assert(prev.dom().contains(path) == files.dom().contains(path));
        }
        assert forall|i: int| k <= i < parts.len() implies after.dom().contains(
            #[trigger] parts[i],
        ) && after[parts[i]] == files[parts[i]] by {
            assert(parts[i] != parts[k - 1]);
            assert(prev.dom().contains(parts[i]));
        }
        assert forall|i: int| 0 <= i < k implies (after.dom().contains(#[trigger] parts[i])
            <==> retain) by {
            if i < k - 1 {
                assert(parts[i] != parts[k - 1]);
                assert(prev.dom().contains(parts[i]) <==> retain);
            }
        }
        if retain {
            assert forall|i: int| 0 <= i < k implies after[#[trigger] parts[i]] == files[parts[i]] by {
                if i < k - 1 {
                    assert(prev[parts[i]] == files[parts[i]]);
                }
            }
        }
        assert(after.dom().contains(target));
        assert(after[target] == joined(part_contents(files, parts).take(k as int)));
        assert(forall|i: int| 0 <= i < k ==> (after.dom().contains(#[trigger] parts[i]) <==> retain));
        assert(retain ==> forall|i: int| 0 <= i < k ==> after[#[trigger] parts[i]] == files[parts[i]]);
        assert(forall|i: int|
            k <= i < parts.len() ==> after.dom().contains(#[trigger] parts[i]) && after[parts[i]]
                == files[parts[i]]);
        assert(forall|path: Seq<u8>|
            path != target && !parts.contains(path) ==> (#[trigger] after.dom().contains(path)
                == files.dom().contains(path) && after[path] == files[path]));
        assert(join_state(files, target, parts, retain, k, after));
    }
}

proof fn lemma_parts_in_are_parts(listing: Seq<Seq<u8>>, stem: Seq<u8>)
    ensures
        forall|i: int|
            0 <= i < parts_in(listing, stem).len() ==> is_part_of(
                #[trigger] parts_in(listing, stem)[i],
                stem,
            ),
    decreases listing.len(),
{
    if listing.len() > 0 {
        lemma_parts_in_are_parts(listing.drop_last(), stem);
        let rest = parts_in(listing.drop_last(), stem);
        assert forall|i: int| 0 <= i < parts_in(listing, stem).len() implies is_part_of(
            #[trigger] parts_in(listing, stem)[i],
            stem,
        ) by {
            if i < rest.len() {
                assert(parts_in(listing, stem)[i] == rest[i]);
            }
        }
    }
}

proof fn lemma_path_in_injective(dir: Seq<u8>, a: Seq<u8>, b: Seq<u8>)
    requires
        path_in(dir, a) == path_in(dir, b),
    ensures
        a == b,
{
    let p = path_in(dir, a);
    if dir.len() == 0 {
    } else if dir.last() == crate::discovery::SLASH {
        assert(a =~= p.subrange(dir.len() as int, p.len() as int));
        assert(b =~= p.subrange(dir.len() as int, p.len() as int));
    } else {
        assert(a =~= p.subrange(dir.len() + 1int, p.len() as int));
        assert(b =~= p.subrange(dir.len() + 1int, p.len() as int));
    }
}

proof fn lemma_found_paths_distinct(dir: Seq<u8>, stem: Seq<u8>, listing: Seq<Seq<u8>>)
    requires
        is_complete_run(parts_in(listing, stem)),
    ensures
        distinct_paths(
            path_in(dir, stem),
            Seq::new(
                parts_in(listing, stem).len(),
                |i: int| path_in(dir, parts_in(listing, stem)[i]),
            ),
        ),
{
    let found = parts_in(listing, stem);
    let paths = Seq::new(found.len(), |i: int| path_in(dir, found[i]));
    lemma_parts_in_are_parts(listing, stem);
    assert forall|i: int, j: int| 0 <= i < j < paths.len() implies paths[i] != paths[j] by {
        if paths[i] == paths[j] {
            lemma_path_in_injective(dir, found[i], found[j]);
            assert(crate::naming::ordinal_of(found[i]) == Some((i + 1) as nat));
            assert(crate::naming::ordinal_of(found[j]) == Some((j + 1) as nat));
        }
    }
    assert forall|i: int| 0 <= i < paths.len() implies paths[i] != path_in(dir, stem) by {
        if paths[i] == path_in(dir, stem) {
            lemma_path_in_injective(dir, found[i], stem);
            assert(is_part_of(found[i], stem));
            lemma_suffix_len(found[i]);
        }
    }
}

/// The size of `num_parts` parts that all have the size of the first but the
/// last, capped at `u64::MAX`.
pub open spec fn total_size(first_len: nat, last_len: nat, num_parts: nat) -> nat {
    let total = first_len * (num_parts - 1) + last_len;
    if total <= u64::MAX {
        total as nat
    } else {
        u64::MAX as nat
    }
}

/// The size of `num_parts` parts, given the size of the first and of the
/// last: every part but the last is as large as the first. A total beyond
/// `u64::MAX` gives `u64::MAX`.
pub fn total_part_size(first_len: u64, last_len: u64, num_parts: u64) -> (r: u64)
    requires
        num_parts >= 1,
    ensures
        r == total_size(first_len as nat, last_len as nat, num_parts as nat),
{
    match first_len.checked_mul(num_parts - 1) {
        Some(body) => match body.checked_add(last_len) {
            Some(total) => total,
            None => u64::MAX,
        },
        None => {
            proof {
                assert(first_len * (num_parts - 1) + last_len > u64::MAX);
            }
            u64::MAX
        },
    }
}

} // verus!
