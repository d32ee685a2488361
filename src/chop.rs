use vstd::prelude::*;

use crate::arith::{digit_count, digits};
use crate::error::ChopError;
use crate::naming::{get_part_path_buf, part_name};
use crate::split::{
    lemma_parts_adjoin, part_end, part_range, part_start, split_by_num_parts,
    split_by_part_size, Split,
};

verus! {

/// What a byte size written as text stands for, as bytesize reads it.
pub uninterp spec fn parsed_byte_size(s: Seq<char>) -> Option<u64>;

/// Relies on bytesize's `FromStr` for `ByteSize`: the result depends on the
/// text alone, and text that `u64`'s own `FromStr` reads is read as that many
/// bytes.
#[verifier::external_body]
fn parse_byte_size(s: &str) -> (r: Result<u64, String>)
    ensures
        r is Ok ==> parsed_byte_size(s@) == Some(r->Ok_0),
        r is Err ==> parsed_byte_size(s@) is None,
        decimal_u64(s@) is Some ==> r is Ok && decimal_u64(s@) == Some(r->Ok_0),
{
    match <bytesize::ByteSize as std::str::FromStr>::from_str(s) {
        Ok(size) => Ok(size.0),
        Err(why) => Err(why),
    }
}

pub open spec fn is_digit_char(c: char) -> bool {
    '0' <= c <= '9'
}

/// The value of a string of decimal digits.
pub open spec fn digits_value(ds: Seq<char>) -> nat
    decreases ds.len(),
{
    if ds.len() == 0 {
        0
    } else {
        digits_value(ds.drop_last()) * 10 + ((ds.last() as u32) - ('0' as u32)) as nat
    }
}

/// The digits of an unsigned number written as text: a leading plus sign is
/// allowed where digits follow it.
pub open spec fn unsigned_digits(s: Seq<char>) -> Seq<char> {
    if s.len() > 1 && s[0] == '+' {
        s.drop_first()
    } else {
        s
    }
}

/// The `u64` that `s` spells in decimal, as `u64`'s `FromStr` reads it.
pub open spec fn decimal_u64(s: Seq<char>) -> Option<u64> {
    let ds = unsigned_digits(s);
    if ds.len() > 0 && (forall|i: int| 0 <= i < ds.len() ==> is_digit_char(#[trigger] ds[i]))
        && digits_value(ds) <= u64::MAX {
        Some(digits_value(ds) as u64)
    } else {
        None
    }
}

proof fn lemma_digits_prefix_le(ds: Seq<char>, k: int)
    requires
        0 <= k <= ds.len(),
        forall|i: int| 0 <= i < ds.len() ==> is_digit_char(#[trigger] ds[i]),
    ensures
        digits_value(ds.subrange(0, k)) <= digits_value(ds),
    decreases ds.len() - k,
{
    if k < ds.len() {
        lemma_digits_prefix_le(ds, k + 1);
        assert(ds.subrange(0, k + 1).drop_last() =~= ds.subrange(0, k));
    } else {
        assert(ds.subrange(0, k) =~= ds);
    }
}

/// Reads a number of parts written in decimal, as `u64`'s `FromStr` does.
pub fn parse_num_parts(s: &str) -> (r: Option<u64>)
    ensures
        r == decimal_u64(s@),
{
    let len = s.unicode_len();
    let start: usize = if len > 1 && s.get_char(0) == '+' {
        1
    } else {
        0
    };
    let ghost ds = unsigned_digits(s@);
    proof {
        assert(ds =~= s@.subrange(start as int, len as int));
    }
    if start == len {
        return None;
    }
    let mut value: u64 = 0;
    let mut i: usize = start;
    while i < len
        invariant
            len == s@.len(),
            start <= i <= len,
            start < len,
            ds == s@.subrange(start as int, len as int),
            ds == unsigned_digits(s@),
            forall|j: int| 0 <= j < i - start ==> is_digit_char(#[trigger] ds[j]),
            value as nat == digits_value(ds.subrange(0, i - start)),
        decreases len - i,
    {
        let c = s.get_char(i);
        if !('0' <= c && c <= '9') {
            proof {
                assert(ds[i - start] == c);
                assert(!is_digit_char(ds[i - start]));
            }
            return None;
        }
        let d = ((c as u32) - ('0' as u32)) as u64;
        proof {
            assert(ds[i - start] == c);
            assert(ds.subrange(0, i + 1 - start).drop_last() =~= ds.subrange(0, i - start));
            assert(ds.subrange(0, i + 1 - start).last() == c);
            assert(is_digit_char(ds[i - start]));
            assert(digits_value(ds.subrange(0, i + 1 - start)) == value * 10 + d);
        }
        match value.checked_mul(10) {
            Some(tens) => match tens.checked_add(d) {
                Some(next) => {
                    value = next;
                },
                None => {
                    proof {
                        lemma_rest_digits(ds, i + 1 - start, s@);
                    }
                    return None;
                },
            },
            None => {
                proof {
                    lemma_rest_digits(ds, i + 1 - start, s@);
                }
                return None;
            },
        }
        i = i + 1;
    }
    proof {
        assert(ds.subrange(0, ds.len() as int) =~= ds);
    }
    Some(value)
}

proof fn lemma_rest_digits(ds: Seq<char>, k: int, s: Seq<char>)
    requires
        0 <= k <= ds.len(),
        forall|j: int| 0 <= j < k ==> is_digit_char(#[trigger] ds[j]),
        digits_value(ds.subrange(0, k)) > u64::MAX,
    ensures
        decimal_u64(s) is None || unsigned_digits(s) != ds,
{
    if unsigned_digits(s) == ds && (forall|i: int| 0 <= i < ds.len() ==> is_digit_char(#[trigger] ds[i])) {
        lemma_digits_prefix_le(ds, k);
    }
}

/// A request for how to split a file, read from the command line.
#[derive(Debug, Copy, Clone, PartialEq, Eq, Structural)]
pub enum SplitRequest {
    /// Parts of at most this many bytes.
    PartSize(u64),
    /// This many parts.
    NumParts(u64),
}

/// One part of the file being split: where it is written and the bytes of
/// the source that it receives.
#[derive(Debug)]
pub struct PartRef {
    pub path: Vec<u8>,
    pub ordinal: u64,
    pub start: u64,
    pub end: u64,
}

/// Everything that splitting one file needs to know.
#[derive(Debug)]
pub struct RunConfig {
    pub path: Vec<u8>,
    pub file_size: u64,
    pub split: Split,
    pub retain: bool,
    pub verbose: bool,
    pub dry_run: bool,
}

impl RunConfig {
    pub open spec fn wf(&self) -> bool {
        self.split.covers(self.file_size as nat)
    }

    /// The configuration for splitting the file at `path`, of `file_size`
    /// bytes, as `request` asks. A dry run is always verbose. A request of
    /// zero bytes or zero parts for a file that is not empty is refused.
    pub fn from_request(
        path: Vec<u8>,
        file_size: u64,
        request: SplitRequest,
        retain: bool,
        verbose: bool,
        dry_run: bool,
    ) -> (r: Result<RunConfig, ChopError>)
        ensures
            r matches Ok(c) ==> c.wf() && c.path == path && c.file_size == file_size && c.retain
                == retain && c.dry_run == dry_run && c.verbose == (verbose || dry_run),
            match request {
                SplitRequest::PartSize(n) => {
                    &&& n == 0 && file_size > 0 ==> (r matches Err(ChopError::ByteSize(_)))
                    &&& n >= file_size ==> (r matches Err(ChopError::PartSizeTooLarge))
                    &&& 0 < n < file_size ==> (r matches Ok(c) && c.split == split_by_part_size(
                        file_size as nat,
                        n as nat,
                    ))
                },
                SplitRequest::NumParts(n) => {
                    &&& n == 0 && file_size > 0 ==> (r matches Err(ChopError::InvalidNumParts))
                    &&& n >= file_size ==> (r matches Err(ChopError::NumPartsTooLarge))
                    &&& 0 < n < file_size ==> (r matches Ok(c) && c.split == split_by_num_parts(
                        file_size as nat,
                        n as nat,
                    ))
                },
            },
    {
        let split = match request {
            SplitRequest::PartSize(n) => {
                if n == 0 && file_size > 0 {
                    return Err(ChopError::ByteSize("a part must hold at least one byte".to_owned()));
                }
                match Split::from_part_size(file_size, n) {
                    Ok(s) => s,
                    Err(e) => {
                        return Err(e);
                    },
                }
            },
            SplitRequest::NumParts(n) => {
                if n == 0 && file_size > 0 {
                    return Err(ChopError::InvalidNumParts);
                }
                match Split::from_num_parts(file_size, n) {
                    Ok(s) => s,
                    Err(e) => {
                        return Err(e);
                    },
                }
            },
        };
        Ok(RunConfig { path, file_size, split, retain, verbose: dry_run || verbose, dry_run })
    }

    /// The configuration for splitting the file at `path`, of `file_size`
    /// bytes, into parts of `part_size` (text such as "20K" or "128MiB") or
    /// into `num_parts` parts; where both are given the part size is used.
    pub fn new(
        path: Vec<u8>,
        file_size: u64,
        part_size: Option<&str>,
        num_parts: Option<&str>,
        retain: bool,
        verbose: bool,
        dry_run: bool,
    ) -> (r: Result<RunConfig, ChopError>)
        requires
            part_size is Some || num_parts is Some,
        ensures
            r matches Ok(c) ==> c.wf() && c.path == path && c.file_size == file_size && c.retain
                == retain && c.dry_run == dry_run && c.verbose == (verbose || dry_run),
            part_size matches Some(text) ==> match parsed_byte_size(text@) {
                None => r matches Err(ChopError::ByteSize(_)),
                Some(n) => {
                    &&& n == 0 && file_size > 0 ==> (r matches Err(ChopError::ByteSize(_)))
                    &&& n >= file_size ==> (r matches Err(ChopError::PartSizeTooLarge))
                    &&& 0 < n < file_size ==> (r matches Ok(c) && c.split == split_by_part_size(
                        file_size as nat,
                        n as nat,
                    ))
                },
            },
            part_size is None ==> match decimal_u64(num_parts->Some_0@) {
                None => r matches Err(ChopError::InvalidNumParts),
                Some(n) => {
                    &&& n == 0 && file_size > 0 ==> (r matches Err(ChopError::InvalidNumParts))
                    &&& n >= file_size ==> (r matches Err(ChopError::NumPartsTooLarge))
                    &&& 0 < n < file_size ==> (r matches Ok(c) && c.split == split_by_num_parts(
                        file_size as nat,
                        n as nat,
                    ))
                },
            },
    {
        let request = match part_size {
            Some(text) => match parse_byte_size(text) {
                Ok(n) => SplitRequest::PartSize(n),
                Err(why) => {
                    return Err(ChopError::ByteSize(why));
                },
            },
            None => {
                let text = match num_parts {
                    Some(t) => t,
                    None => {
                        return Err(ChopError::InvalidNumParts);
                    },
                };
                match parse_num_parts(text) {
                    Some(n) => SplitRequest::NumParts(n),
                    None => {
                        return Err(ChopError::InvalidNumParts);
                    },
                }
            },
        };
        RunConfig::from_request(path, file_size, request, retain, verbose, dry_run)
    }

    /// The free space that splitting needs: one part at a time where the
    /// source shrinks as parts are written, the whole file where it is kept.
    pub fn space_needed(&self) -> (r: u64)
        ensures
            r == if self.retain {
                self.file_size
            } else {
                self.split.part_size
            },
    {
        if self.retain {
            self.file_size
        } else {
            self.split.part_size
        }
    }

    /// The length to cut the source back to once the part with the given
    /// ordinal is written: the start of that part, which leaves every byte
    /// that the parts still to come need (see `lemma_chop_reads_intact`).
    /// `None` where the source is kept.
    pub fn source_cut(&self, ordinal: u64) -> (r: Option<u64>)
        requires
            self.wf(),
            1 <= ordinal <= self.split.num_parts,
        ensures
            r == if self.retain {
                None::<u64>
            } else {
                Some(part_start(self.split, ordinal as nat) as u64)
            },
    {
        if self.retain {
            None
        } else {
            let (start, _) = part_range(self.split, self.file_size, ordinal);
            Some(start)
        }
    }

    /// Whether the source is removed once every part is written.
    pub fn removes_source(&self) -> (r: bool)
        ensures
            r == !self.retain,
    {
        !self.retain
    }

    /// The part to write once `done` parts have been written, or `None` when
    /// all are. Parts are written from the last to the first, so that the
    /// source can be cut back to the start of each part once it is written:
    /// each part ends where the source ends at that point.
    pub fn next_part(&self, done: u64) -> (r: Option<PartRef>)
        requires
            self.wf(),
        ensures
            done >= self.split.num_parts ==> r is None,
            done < self.split.num_parts ==> (r matches Some(p) && {
                let ordinal = (self.split.num_parts - done) as nat;
                &&& p.ordinal == ordinal
                &&& p.path@ == part_name(
                    self.path@,
                    ordinal,
                    digit_count(self.split.num_parts as nat),
                )
                &&& p.start == part_start(self.split, ordinal)
                &&& p.end == part_end(self.split, self.file_size as nat, ordinal)
                &&& p.start <= p.end
                &&& p.end == if done == 0 {
                    self.file_size as nat
                } else {
                    part_start(self.split, ordinal + 1)
                }
            }),
    {
        if done >= self.split.num_parts {
            return None;
        }
        let ordinal = self.split.num_parts - done;
        proof {
            lemma_parts_adjoin(self.split, self.file_size as nat, ordinal as nat);
        }
        let (start, end) = part_range(self.split, self.file_size, ordinal);
        let width = digits(self.split.num_parts);
        let path = get_part_path_buf(self.path.as_slice(), ordinal, width);
        Some(PartRef { path, ordinal, start, end })
    }
}

} // verus!
