//! CRAM read features: how a read differs from the reference, derived from its CIGAR
//! operations, bases and quality scores.
//!
//! Positions are 1-based positions in the read. Operations that consume the read (matches,
//! insertions, soft clips) advance the position by their length; the others do not.

use vstd::prelude::*;
use vstd::slice::{slice_subrange, slice_to_vec};

verus! {

/// The kind of a CIGAR operation.
#[derive(Clone, Copy, Debug, Eq, PartialEq, Structural)]
pub enum Kind {
    Match,
    Insertion,
    Deletion,
    Skip,
    SoftClip,
    HardClip,
    Pad,
    SequenceMatch,
    SequenceMismatch,
}

/// A CIGAR operation: its kind and length.
#[derive(Clone, Copy, Debug, Eq, PartialEq, Structural)]
pub struct Op {
    pub kind: Kind,
    pub len: usize,
}

/// A read feature, at a 1-based read position. Bases are their characters; quality scores
/// are Phred values.
#[derive(Clone, Debug, Eq, PartialEq)]
pub enum Feature {
    ReadBase(usize, u8, u8),
    Bases(usize, Vec<u8>),
    Scores(usize, Vec<u8>),
    InsertBase(usize, u8),
    QualityScore(usize, u8),
    Insertion(usize, Vec<u8>),
    Deletion(usize, usize),
    ReferenceSkip(usize, usize),
    SoftClip(usize, Vec<u8>),
    HardClip(usize, usize),
    Padding(usize, usize),
}

/// The mathematical content of a [`Feature`].
pub enum FeatureView {
    ReadBase(int, u8, u8),
    Bases(int, Seq<u8>),
    Scores(int, Seq<u8>),
    InsertBase(int, u8),
    QualityScore(int, u8),
    Insertion(int, Seq<u8>),
    Deletion(int, int),
    ReferenceSkip(int, int),
    SoftClip(int, Seq<u8>),
    HardClip(int, int),
    Padding(int, int),
}

impl View for Feature {
    type V = FeatureView;

    open spec fn view(&self) -> FeatureView {
        match self {
            Feature::ReadBase(p, b, s) => FeatureView::ReadBase(*p as int, *b, *s),
            Feature::Bases(p, b) => FeatureView::Bases(*p as int, b@),
            Feature::Scores(p, s) => FeatureView::Scores(*p as int, s@),
            Feature::InsertBase(p, b) => FeatureView::InsertBase(*p as int, *b),
            Feature::QualityScore(p, s) => FeatureView::QualityScore(*p as int, *s),
            Feature::Insertion(p, b) => FeatureView::Insertion(*p as int, b@),
            Feature::Deletion(p, n) => FeatureView::Deletion(*p as int, *n as int),
            Feature::ReferenceSkip(p, n) => FeatureView::ReferenceSkip(*p as int, *n as int),
            Feature::SoftClip(p, b) => FeatureView::SoftClip(*p as int, b@),
            Feature::HardClip(p, n) => FeatureView::HardClip(*p as int, *n as int),
            Feature::Padding(p, n) => FeatureView::Padding(*p as int, *n as int),
        }
    }
}

/// Whether an operation consumes read bases.
pub open spec fn consumes_read(k: Kind) -> bool {
    k == Kind::Match || k == Kind::Insertion || k == Kind::SoftClip || k == Kind::SequenceMatch
        || k == Kind::SequenceMismatch
}

/// The read position after the operations `ops`, starting at 1.
pub open spec fn position_after(ops: Seq<Op>) -> int
    decreases ops.len(),
{
    if ops.len() == 0 {
        1
    } else {
        position_after(ops.drop_last()) + if consumes_read(ops.last().kind) {
            ops.last().len as int
        } else {
            0
        }
    }
}

/// The features of one operation at read position `p`.
pub open spec fn op_features(op: Op, p: int, seq: Seq<u8>, quals: Seq<u8>) -> Seq<FeatureView> {
    let n = op.len as int;
    let bases = seq.subrange(p - 1, p - 1 + n);
    let scores = quals.subrange(p - 1, p - 1 + n);
    match op.kind {
        Kind::Match | Kind::SequenceMatch | Kind::SequenceMismatch => if n == 1 {
            seq![FeatureView::ReadBase(p, seq[p - 1], quals[p - 1])]
        } else {
            seq![FeatureView::Bases(p, bases), FeatureView::Scores(p, scores)]
        },
        Kind::Insertion => if n == 1 {
            seq![FeatureView::InsertBase(p, seq[p - 1]), FeatureView::QualityScore(p, quals[p - 1])]
        } else {
            seq![FeatureView::Insertion(p, bases), FeatureView::Scores(p, scores)]
        },
        Kind::Deletion => seq![FeatureView::Deletion(p, n)],
        Kind::Skip => seq![FeatureView::ReferenceSkip(p, n)],
        Kind::SoftClip => if n == 1 {
            seq![FeatureView::SoftClip(p, bases), FeatureView::QualityScore(p, quals[p - 1])]
        } else {
            seq![FeatureView::SoftClip(p, bases), FeatureView::Scores(p, scores)]
        },
        Kind::HardClip => seq![FeatureView::HardClip(p, n)],
        Kind::Pad => seq![FeatureView::Padding(p, n)],
    }
}

/// The features of the operations `ops`, one operation after another.
pub open spec fn features_of(ops: Seq<Op>, seq: Seq<u8>, quals: Seq<u8>) -> Seq<FeatureView>
    decreases ops.len(),
{
    if ops.len() == 0 {
        Seq::empty()
    } else {
        features_of(ops.drop_last(), seq, quals) + op_features(
            ops.last(),
            position_after(ops.drop_last()),
            seq,
            quals,
        )
    }
}

/// The views of a list of features.
pub open spec fn feature_views(fs: Seq<Feature>) -> Seq<FeatureView> {
    Seq::new(fs.len(), |i: int| fs[i]@)
}

proof fn lemma_position_grows(ops: Seq<Op>, i: int)
    requires
        0 <= i <= ops.len(),
    ensures
        1 <= position_after(ops.subrange(0, i)) <= position_after(ops),
    decreases ops.len() - i,
{
    if i < ops.len() {
        lemma_position_grows(ops, i + 1);
        assert(ops.subrange(0, i + 1).drop_last() =~= ops.subrange(0, i));
    } else {
        assert(ops.subrange(0, i) =~= ops);
    }
    lemma_position_positive(ops.subrange(0, i));
}

proof fn lemma_position_positive(ops: Seq<Op>)
    ensures
        position_after(ops) >= 1,
    decreases ops.len(),
{
    if ops.len() > 0 {
        lemma_position_positive(ops.drop_last());
    }
}

/// CRAM record features.
#[derive(Clone, Debug, Default, Eq, PartialEq)]
pub struct Features(Vec<Feature>);

impl Features {
    /// The features, in order.
    pub closed spec fn spec_features(&self) -> Seq<FeatureView> {
        feature_views(self.0@)
    }

    /// The features, in order.
    pub fn as_slice(&self) -> (r: &[Feature])
        ensures
            feature_views(r@) == self.spec_features(),
    {
        self.0.as_slice()
    }

    /// Converts CIGAR operations, with the read's bases and quality scores, to features. The
    /// read-consuming operations must fit in the bases and in the scores.
    pub fn from_cigar(cigar: &Vec<Op>, sequence: &Vec<u8>, quality_scores: &Vec<u8>) -> (r:
        Features)
        requires
            position_after(cigar@) - 1 <= sequence@.len(),
            position_after(cigar@) - 1 <= quality_scores@.len(),
            position_after(cigar@) <= usize::MAX,
        ensures
            r.spec_features() == features_of(cigar@, sequence@, quality_scores@),
    {
        cigar_to_features(cigar, sequence, quality_scores)
    }
}

impl From<Vec<Feature>> for Features {
    fn from(features: Vec<Feature>) -> (r: Features)
        ensures
            r.spec_features() == feature_views(features@),
    {
        Features(features)
    }
}

impl vstd::std_specs::convert::FromSpecImpl<Vec<Feature>> for Features {
    open spec fn obeys_from_spec() -> bool {
        false
    }

    open spec fn from_spec(features: Vec<Feature>) -> Features {
        arbitrary()
    }
}

/// Converts CIGAR operations, with the read's bases and quality scores, to features.
#[verifier::rlimit(40)]
pub fn cigar_to_features(cigar: &Vec<Op>, sequence: &Vec<u8>, quality_scores: &Vec<u8>) -> (r:
    Features)
    requires
        position_after(cigar@) - 1 <= sequence@.len(),
        position_after(cigar@) - 1 <= quality_scores@.len(),
        position_after(cigar@) <= usize::MAX,
    ensures
        r.spec_features() == features_of(cigar@, sequence@, quality_scores@),
{
    let ghost seq = sequence@;
    let ghost quals = quality_scores@;
    let mut features: Vec<Feature> = Vec::new();
    let mut read_position: usize = 1;
    let mut i: usize = 0;
    while i < cigar.len()
        invariant
            i <= cigar@.len(),
            seq == sequence@,
            quals == quality_scores@,
            position_after(cigar@) - 1 <= sequence@.len(),
            position_after(cigar@) - 1 <= quality_scores@.len(),
            position_after(cigar@) <= usize::MAX,
            read_position == position_after(cigar@.subrange(0, i as int)),
            feature_views(features@) == features_of(cigar@.subrange(0, i as int), seq, quals),
        decreases cigar@.len() - i,
    {
        let op = cigar[i];
        let p = read_position;
        let ghost prefix = cigar@.subrange(0, i as int);
        let ghost next = cigar@.subrange(0, i + 1);
        proof {
            assert(next.drop_last() =~= prefix);
            assert(next.last() == op);
            lemma_position_grows(cigar@, i + 1);
            lemma_position_positive(prefix);
            assert(position_after(next) == p + if consumes_read(op.kind) {
                op.len as int
            } else {
                0
            });
            assert(consumes_read(op.kind) ==> p + op.len - 1 <= seq.len() && p + op.len - 1
                <= quals.len() && p + op.len <= usize::MAX);
        }
        let ghost before = feature_views(features@);
        let n = op.len;
        match op.kind {
            Kind::Match | Kind::SequenceMatch | Kind::SequenceMismatch => {
                if n == 1 {
                    features.push(Feature::ReadBase(p, sequence[p - 1], quality_scores[p - 1]));
                } else {
                    let bases = slice_to_vec(slice_subrange(sequence.as_slice(), p - 1, p - 1 + n));
                    features.push(Feature::Bases(p, bases));
                    let scores = slice_to_vec(
                        slice_subrange(quality_scores.as_slice(), p - 1, p - 1 + n),
                    );
                    features.push(Feature::Scores(p, scores));
                }
            },
            Kind::Insertion => {
                if n == 1 {
                    features.push(Feature::InsertBase(p, sequence[p - 1]));
                    features.push(Feature::QualityScore(p, quality_scores[p - 1]));
                } else {
                    let bases = slice_to_vec(slice_subrange(sequence.as_slice(), p - 1, p - 1 + n));
                    features.push(Feature::Insertion(p, bases));
                    let scores = slice_to_vec(
                        slice_subrange(quality_scores.as_slice(), p - 1, p - 1 + n),
                    );
                    features.push(Feature::Scores(p, scores));
                }
            },
            Kind::Deletion => features.push(Feature::Deletion(p, n)),
            Kind::Skip => features.push(Feature::ReferenceSkip(p, n)),
            Kind::SoftClip => {
                let bases = slice_to_vec(slice_subrange(sequence.as_slice(), p - 1, p - 1 + n));
                features.push(Feature::SoftClip(p, bases));
                if n == 1 {
                    features.push(Feature::QualityScore(p, quality_scores[p - 1]));
                } else {
                    let scores = slice_to_vec(
                        slice_subrange(quality_scores.as_slice(), p - 1, p - 1 + n),
                    );
                    features.push(Feature::Scores(p, scores));
                }
            },
            Kind::HardClip => features.push(Feature::HardClip(p, n)),
            Kind::Pad => features.push(Feature::Padding(p, n)),
        }
        proof {
            assert(feature_views(features@) =~= before + op_features(op, p as int, seq, quals));
        }
        if op.kind == Kind::Match || op.kind == Kind::Insertion || op.kind == Kind::SoftClip
            || op.kind == Kind::SequenceMatch || op.kind == Kind::SequenceMismatch {
            read_position = read_position + n;
        }
        i = i + 1;
    }
    assert(cigar@.subrange(0, cigar@.len() as int) =~= cigar@);
    Features(features)
}

} // verus!
