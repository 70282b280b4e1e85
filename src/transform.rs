//! The transformation language: `kind:args` segments separated by `;`.

use vstd::prelude::*;
use vstd::string::*;

use crate::error::{ParseError, ParseErrorView};
use crate::text::{
    find_char, first_index_of, matches_token, matches_token_str, split_on, split_str, trim, trim_str,
    views,
};

verus! {

/// How a stream of values is reduced to one value.
#[derive(Debug, Clone, Copy, PartialEq, Eq, Structural)]
pub enum AggregationType {
    Min,
    Max,
    Sum,
    Average,
    Count,
    Any,
}

impl Default for AggregationType {
    fn default() -> (r: Self)
        ensures
            r == AggregationType::Any,
    {
        AggregationType::Any
    }
}

/// The aggregation that `s` names, ignoring ASCII case.
pub open spec fn spec_aggregation(s: Seq<char>) -> Option<AggregationType> {
    if matches_token(s, "min"@) {
        Some(AggregationType::Min)
    } else if matches_token(s, "max"@) {
        Some(AggregationType::Max)
    } else if matches_token(s, "sum"@) {
        Some(AggregationType::Sum)
    } else if matches_token(s, "average"@) {
        Some(AggregationType::Average)
    } else if matches_token(s, "count"@) {
        Some(AggregationType::Count)
    } else if matches_token(s, "any"@) {
        Some(AggregationType::Any)
    } else {
        None
    }
}

impl AggregationType {
    /// The aggregation named by `s` (`min`, `max`, `sum`, `average`, `count`
    /// or `any`, in any ASCII case).
    pub fn parse(s: &str) -> (r: Option<AggregationType>)
        ensures
            r == spec_aggregation(s@),
    {
        if matches_token_str(s, "min") {
            Some(AggregationType::Min)
        } else if matches_token_str(s, "max") {
            Some(AggregationType::Max)
        } else if matches_token_str(s, "sum") {
            Some(AggregationType::Sum)
        } else if matches_token_str(s, "average") {
            Some(AggregationType::Average)
        } else if matches_token_str(s, "count") {
            Some(AggregationType::Count)
        } else if matches_token_str(s, "any") {
            Some(AggregationType::Any)
        } else {
            None
        }
    }
}

/// One step of a node's pipeline.
#[derive(Debug, Clone, PartialEq, Eq)]
pub enum Transformation {
    Aggregate(AggregationType),
    Filter(String),
    /// Rewrites each value (`Map` names the mathematical map type in this
    /// crate's proof library).
    MapValue(String),
}

/// The mathematical value of a [`Transformation`].
pub enum TransformationView {
    Aggregate(AggregationType),
    Filter(Seq<char>),
    MapValue(Seq<char>),
}

impl View for Transformation {
    type V = TransformationView;

    open spec fn view(&self) -> TransformationView {
        match self {
            Transformation::Aggregate(a) => TransformationView::Aggregate(*a),
            Transformation::Filter(e) => TransformationView::Filter(e@),
            Transformation::MapValue(e) => TransformationView::MapValue(e@),
        }
    }
}

/// The views of a sequence of transformations.
pub open spec fn transformation_views(v: Seq<Transformation>) -> Seq<TransformationView> {
    v.map_values(|t: Transformation| t@)
}

/// One `kind:args` segment: split at the first `:`, both halves trimmed.
pub open spec fn spec_segment(seg: Seq<char>) -> Result<TransformationView, ParseErrorView> {
    match first_index_of(seg, ':') {
        None => Err(ParseErrorView::MissingSeparator(seg)),
        Some(i) => {
            let kind = trim(seg.subrange(0, i));
            let args = trim(seg.subrange(i + 1, seg.len() as int));
            if kind == "aggregate"@ {
                match spec_aggregation(args) {
                    Some(a) => Ok(TransformationView::Aggregate(a)),
                    None => Err(ParseErrorView::UnknownAggregation(args)),
                }
            } else if kind == "map"@ {
                Ok(TransformationView::MapValue(args))
            } else if kind == "filter"@ {
                Ok(TransformationView::Filter(args))
            } else {
                Err(ParseErrorView::UnknownTransformation(kind))
            }
        },
    }
}

/// The segments parsed in order; the first malformed one is the error.
pub open spec fn spec_segments(segs: Seq<Seq<char>>) -> Result<
    Seq<TransformationView>,
    ParseErrorView,
>
    decreases segs.len(),
{
    if segs.len() == 0 {
        Ok(Seq::empty())
    } else {
        match spec_segments(segs.drop_last()) {
            Err(e) => Err(e),
            Ok(done) => match spec_segment(segs.last()) {
                Ok(t) => Ok(done.push(t)),
                Err(e) => Err(e),
            },
        }
    }
}

/// A transformations field: empty means no transformation, otherwise the
/// `;`-separated segments in document order.
pub open spec fn spec_transformations(s: Seq<char>) -> Result<
    Seq<TransformationView>,
    ParseErrorView,
> {
    if s.len() == 0 {
        Ok(Seq::empty())
    } else {
        spec_segments(split_on(s, ';'))
    }
}

/// Parses one `kind:args` segment.
pub fn parse_segment(seg: &str) -> (r: Result<Transformation, ParseError>)
    ensures
        match r {
            Ok(t) => spec_segment(seg@) == Ok::<TransformationView, ParseErrorView>(t@),
            Err(e) => spec_segment(seg@) == Err::<TransformationView, ParseErrorView>(e@),
        },
{
    match find_char(seg, ':') {
        None => Err(ParseError::MissingSeparator(String::from_str(seg))),
        Some(i) => {
            let n = seg.unicode_len();
            let kind = trim_str(seg.substring_char(0, i));
            let args = trim_str(seg.substring_char(i + 1, n));
            if kind == String::from_str("aggregate") {
                match AggregationType::parse(args.as_str()) {
                    Some(a) => Ok(Transformation::Aggregate(a)),
                    None => Err(ParseError::UnknownAggregation(args)),
                }
            } else if kind == String::from_str("map") {
                Ok(Transformation::MapValue(args))
            } else if kind == String::from_str("filter") {
                Ok(Transformation::Filter(args))
            } else {
                Err(ParseError::UnknownTransformation(kind))
            }
        },
    }
}

/// Parses a transformations field into its pipeline, keeping document order.
pub fn parse_transformations(s: &str) -> (r: Result<Vec<Transformation>, ParseError>)
    ensures
        match r {
            Ok(v) => spec_transformations(s@) == Ok::<Seq<TransformationView>, ParseErrorView>(
                transformation_views(v@),
            ),
            Err(e) => spec_transformations(s@) == Err::<Seq<TransformationView>, ParseErrorView>(
                e@,
            ),
        },
{
    let mut out: Vec<Transformation> = Vec::new();
    if s.unicode_len() == 0 {
        assert(transformation_views(out@) =~= Seq::<TransformationView>::empty());
        return Ok(out);
    }
    let segs = split_str(s, ';');
    let ghost segv = views(segs@);
    let mut k: usize = 0;
    assert(segv.subrange(0, 0) =~= Seq::<Seq<char>>::empty());
    assert(transformation_views(out@) =~= Seq::<TransformationView>::empty());
    while k < segs.len()
        invariant
            segv == views(segs@),
            segv == split_on(s@, ';'),
            s@.len() != 0,
            k <= segs.len(),
            spec_segments(segv.subrange(0, k as int)) == Ok::<
                Seq<TransformationView>,
                ParseErrorView,
            >(transformation_views(out@)),
        decreases segs.len() - k,
    {
        let ghost prefix = segv.subrange(0, k + 1);
        assert(prefix.drop_last() =~= segv.subrange(0, k as int));
        assert(prefix.last() == segs@[k as int]@);
        match parse_segment(segs[k].as_str()) {
            Ok(t) => {
                let ghost done = transformation_views(out@);
                out.push(t);
                assert(transformation_views(out@) =~= done.push(t@));
                assert(spec_segments(prefix) == Ok::<Seq<TransformationView>, ParseErrorView>(
                    done.push(t@),
                ));
            },
            Err(e) => {
                assert(spec_segments(prefix) == Err::<Seq<TransformationView>, ParseErrorView>(
                    e@,
                ));
                proof {
                    lemma_segments_error_persists(segv, k + 1);
                }
                assert(spec_segments(segv) == Err::<Seq<TransformationView>, ParseErrorView>(e@));
                return Err(e);
            },
        }
        k = k + 1;
    }
    assert(segv.subrange(0, segs.len() as int) =~= segv);
    Ok(out)
}

/// Once a prefix of the segments fails, every longer prefix fails the same way.
proof fn lemma_segments_error_persists(segs: Seq<Seq<char>>, k: int)
    requires
        0 <= k <= segs.len(),
        spec_segments(segs.subrange(0, k)) is Err,
    ensures
        spec_segments(segs) == spec_segments(segs.subrange(0, k)),
    decreases segs.len() - k,
{
    if k < segs.len() {
        let next = segs.subrange(0, k + 1);
        assert(next.drop_last() =~= segs.subrange(0, k));
        lemma_segments_error_persists(segs, k + 1);
    } else {
        assert(segs.subrange(0, k) =~= segs);
    }
}

} // verus!
