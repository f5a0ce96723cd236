use vstd::prelude::*;
use crate::text::{
    chars_of, parse_i64, piece_views, read_i64, split, split_at, string_of,
};

verus! {

/// An annotated interval, with its name if it has one.
#[derive(Debug, PartialEq, Eq)]
pub struct Annot {
    pub begin: i64,
    pub end: i64,
    pub name: Option<String>,
}

/// An annotation as a mathematical value.
pub struct AnnotView {
    pub begin: int,
    pub end: int,
    pub name: Option<Seq<char>>,
}

impl View for Annot {
    type V = AnnotView;

    open spec fn view(&self) -> AnnotView {
        AnnotView {
            begin: self.begin as int,
            end: self.end as int,
            name: match self.name {
                Some(n) => Some(n@),
                None => None,
            },
        }
    }
}

/// What is drawn for an annotation: a level line from `begin` to `end` at
/// `height`, in the colour given as red, green and blue.
#[derive(Debug, PartialEq, Eq)]
pub struct AnnotTrace {
    pub begin: i64,
    pub end: i64,
    pub height: i64,
    pub name: Option<String>,
    pub show_legend: bool,
    pub color: (u8, u8, u8),
    pub width: usize,
}

/// An annotation's trace as a mathematical value.
pub struct AnnotTraceView {
    pub begin: int,
    pub end: int,
    pub height: int,
    pub name: Option<Seq<char>>,
    pub show_legend: bool,
    pub color: (u8, u8, u8),
    pub width: int,
}

impl View for AnnotTrace {
    type V = AnnotTraceView;

    open spec fn view(&self) -> AnnotTraceView {
        AnnotTraceView {
            begin: self.begin as int,
            end: self.end as int,
            height: self.height as int,
            name: match self.name {
                Some(n) => Some(n@),
                None => None,
            },
            show_legend: self.show_legend,
            color: self.color,
            width: self.width as int,
        }
    }
}

/// The trace of an annotation: a grey line of width 3 below the rows of the
/// sources, under the annotation's name if it has one, without a legend
/// entry.
pub open spec fn annot_trace_of(annot: AnnotView) -> AnnotTraceView {
    AnnotTraceView {
        begin: annot.begin,
        end: annot.end,
        height: -2,
        name: annot.name,
        show_legend: false,
        color: (128u8, 128u8, 128u8),
        width: 3,
    }
}

impl Annot {
    /// The trace that shows this annotation.
    pub fn plot(self) -> (out: AnnotTrace)
        ensures
            out@ == annot_trace_of(self@),
    {
        AnnotTrace {
            begin: self.begin,
            end: self.end,
            height: -2,
            name: self.name,
            show_legend: false,
            color: (128, 128, 128),
            width: 3,
        }
    }
}

/// Why a line is no annotation.
#[derive(Debug, Clone, Copy, PartialEq, Eq, Structural)]
pub enum BedError {
    /// The line has fewer than three fields.
    MissingField,
    /// The second field is no number.
    InvalidBegin,
    /// The third field is no number.
    InvalidEnd,
}

/// The annotation that a line of tab-separated fields writes: the second and
/// third field are its begin and end, the fourth, where there is one, its
/// name. The first fault met in reading order is the one reported.
pub open spec fn annot_of(line: Seq<char>) -> Result<AnnotView, BedError> {
    let fields = split(line, '\t');
    if fields.len() < 2 {
        Err(BedError::MissingField)
    } else {
        match parse_i64(fields[1]) {
            None => Err(BedError::InvalidBegin),
            Some(begin) => if fields.len() < 3 {
                Err(BedError::MissingField)
            } else {
                match parse_i64(fields[2]) {
                    None => Err(BedError::InvalidEnd),
                    Some(end) => Ok(
                        AnnotView {
                            begin: begin as int,
                            end: end as int,
                            name: if fields.len() > 3 {
                                Some(fields[3])
                            } else {
                                None
                            },
                        },
                    ),
                }
            },
        }
    }
}

/// Reads one annotation line.
pub fn parse_bed_line(line: &str) -> (out: Result<Annot, BedError>)
    ensures
        match out {
            Ok(a) => annot_of(line@) == Ok::<AnnotView, BedError>(a@),
            Err(e) => annot_of(line@) == Err::<AnnotView, BedError>(e),
        },
{
    let line_split = split_at(&chars_of(line), '\t');
    proof {
        assert(piece_views(line_split@).len() == line_split@.len());
    }
    if line_split.len() < 2 {
        return Err(BedError::MissingField);
    }
    proof {
        assert(piece_views(line_split@)[1] == line_split@[1]@);
    }
    let begin = match read_i64(&line_split[1]) {
        Some(begin) => begin,
        None => {
            return Err(BedError::InvalidBegin);
        },
    };
    if line_split.len() < 3 {
        return Err(BedError::MissingField);
    }
    proof {
        assert(piece_views(line_split@)[2] == line_split@[2]@);
    }
    let end = match read_i64(&line_split[2]) {
        Some(end) => end,
        None => {
            return Err(BedError::InvalidEnd);
        },
    };
    if line_split.len() > 3 {
        proof {
            assert(piece_views(line_split@)[3] == line_split@[3]@);
            assert(line_split@[3]@.subrange(0, line_split@[3]@.len() as int) =~= line_split@[3]@);
        }
        let name = string_of(&line_split[3], 0, line_split[3].len());
        Ok(Annot { begin, end, name: Some(name) })
    } else {
        Ok(Annot { begin, end, name: None })
    }
}

/// The annotations that the lines write, or the fault of the first line that
/// writes none.
pub open spec fn annots_of(lines: Seq<Seq<char>>) -> Result<Seq<AnnotView>, BedError>
    decreases lines.len(),
{
    if lines.len() == 0 {
        Ok(Seq::empty())
    } else {
        match annots_of(lines.drop_last()) {
            Err(e) => Err(e),
            Ok(before) => match annot_of(lines.last()) {
                Err(e) => Err(e),
                Ok(a) => Ok(before.push(a)),
            },
        }
    }
}

/// The views of the lines.
pub open spec fn line_views(lines: Seq<String>) -> Seq<Seq<char>> {
    Seq::new(lines.len(), |k: int| lines[k]@)
}

/// The views of a list of annotations.
pub open spec fn annot_views(annots: Seq<Annot>) -> Seq<AnnotView> {
    Seq::new(annots.len(), |k: int| annots[k]@)
}

/// Reads the annotations of a region from its lines, in their order.
pub fn parse_bed(lines: &Vec<String>) -> (out: Result<Vec<Annot>, BedError>)
    ensures
        match out {
            Ok(annotation) => annots_of(line_views(lines@)) == Ok::<Seq<AnnotView>, BedError>(
                annot_views(annotation@),
            ),
            Err(e) => annots_of(line_views(lines@)) == Err::<Seq<AnnotView>, BedError>(e),
        },
{
    let mut annotation: Vec<Annot> = Vec::new();
    let n = lines.len();
    let ghost views = line_views(lines@);
    let mut i: usize = 0;
    proof {
        assert(views.take(0) =~= Seq::<Seq<char>>::empty());
        assert(annot_views(annotation@) =~= Seq::<AnnotView>::empty());
    }
    while i < n
        invariant
            0 <= i <= n,
            n == lines@.len(),
            views == line_views(lines@),
            annots_of(views.take(i as int)) == Ok::<Seq<AnnotView>, BedError>(
                annot_views(annotation@),
            ),
        decreases n - i,
    {
        let ghost before = annot_views(annotation@);
        proof {
            assert(views.take(i + 1).drop_last() =~= views.take(i as int));
            assert(views.take(i + 1).last() == lines@[i as int]@);
        }
        match parse_bed_line(lines[i].as_str()) {
            Ok(a) => {
                annotation.push(a);
                assert(annot_views(annotation@) =~= before.push(a@));
            },
            Err(e) => {
                proof {
                    lemma_fault_stays(views, i + 1);
                }
                return Err(e);
            },
        }
        i += 1;
    }
    assert(views.take(n as int) =~= views);
    Ok(annotation)
}

/// Once a line is faulty, more lines change nothing.
proof fn lemma_fault_stays(lines: Seq<Seq<char>>, n: int)
    requires
        0 <= n <= lines.len(),
        annots_of(lines.take(n)) is Err,
    ensures
        annots_of(lines) == annots_of(lines.take(n)),
    decreases lines.len() - n,
{
    if n < lines.len() {
        assert(lines.take(n + 1).drop_last() =~= lines.take(n));
        lemma_fault_stays(lines, n + 1);
    } else {
        assert(lines.take(n) =~= lines);
    }
}

} // verus!
