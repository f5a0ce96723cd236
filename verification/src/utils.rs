use vstd::prelude::*;
use crate::text::{chars_of, parse_u32, read_u32, remove_all, split, split_at, string_of, without, piece_views};

verus! {

/// A window on one chromosome, from `start` up to `end`.
pub struct Reg {
    pub chrom: String,
    pub start: u32,
    pub end: u32,
}

/// A region as a mathematical value.
pub struct RegView {
    pub chrom: Seq<char>,
    pub start: int,
    pub end: int,
}

impl View for Reg {
    type V = RegView;

    open spec fn view(&self) -> RegView {
        RegView { chrom: self.chrom@, start: self.start as int, end: self.end as int }
    }
}

/// Why a text is no region.
#[derive(Debug, Clone, Copy, PartialEq, Eq, Structural)]
pub enum RegionError {
    /// The `:` after the chromosome or the `-` between the bounds is missing.
    MissingSeparator,
    /// A bound is not a number that fits in 32 bits.
    NonNumericBound,
    /// The end is not behind the start.
    EmptyInterval,
}

/// The region that `reg` writes as `chrom:start-end`. Commas are dropped
/// first. The chromosome is what stands before the first `:`, the bounds are
/// the first two pieces between `-` of what follows it up to the next `:`.
/// The first fault met in reading order is the one reported.
pub open spec fn region_of(reg: Seq<char>) -> Result<RegView, RegionError> {
    let fields = split(without(reg, ','), ':');
    if fields.len() < 2 {
        Err(RegionError::MissingSeparator)
    } else {
        let bounds = split(fields[1], '-');
        match parse_u32(bounds[0]) {
            None => Err(RegionError::NonNumericBound),
            Some(start) => if bounds.len() < 2 {
                Err(RegionError::MissingSeparator)
            } else {
                match parse_u32(bounds[1]) {
                    None => Err(RegionError::NonNumericBound),
                    Some(end) => if start < end {
                        Ok(RegView { chrom: fields[0], start: start as int, end: end as int })
                    } else {
                        Err(RegionError::EmptyInterval)
                    },
                }
            },
        }
    }
}

/// Reads a region of the form `chrom:start-end`, in which commas may group
/// the digits.
pub fn process_region(reg: &str) -> (out: Result<Reg, RegionError>)
    ensures
        match out {
            Ok(r) => region_of(reg@) == Ok::<RegView, RegionError>(r@),
            Err(e) => region_of(reg@) == Err::<RegView, RegionError>(e),
        },
        out matches Ok(r) ==> r.start < r.end,
{
    let text = remove_all(&chars_of(reg), ',');
    let fields = split_at(&text, ':');
    proof {
        assert(piece_views(fields@).len() == fields@.len());
    }
    if fields.len() < 2 {
        return Err(RegionError::MissingSeparator);
    }
    proof {
        assert(piece_views(fields@)[0] == fields@[0]@);
        assert(piece_views(fields@)[1] == fields@[1]@);
    }
    let bounds = split_at(&fields[1], '-');
    proof {
        assert(piece_views(bounds@).len() == bounds@.len());
        assert(piece_views(bounds@)[0] == bounds@[0]@);
    }
    let start = match read_u32(&bounds[0]) {
        Some(start) => start,
        None => {
            return Err(RegionError::NonNumericBound);
        },
    };
    if bounds.len() < 2 {
        return Err(RegionError::MissingSeparator);
    }
    proof {
        assert(piece_views(bounds@)[1] == bounds@[1]@);
    }
    let end = match read_u32(&bounds[1]) {
        Some(end) => end,
        None => {
            return Err(RegionError::NonNumericBound);
        },
    };
    if start < end {
        let chrom = string_of(&fields[0], 0, fields[0].len());
        assert(fields@[0]@.subrange(0, fields@[0]@.len() as int) =~= fields@[0]@);
        Ok(Reg { chrom, start, end })
    } else {
        Err(RegionError::EmptyInterval)
    }
}

} // verus!
