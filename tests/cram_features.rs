use seqidx::cram_features::{cigar_to_features, Feature, Features, Kind, Op};

fn op(kind: Kind, len: usize) -> Op {
    Op { kind, len }
}

/// Quality scores written as characters (Phred + 33), as Phred values.
fn scores(s: &str) -> Vec<u8> {
    s.bytes().map(|b| b - 33).collect()
}

fn score(c: char) -> u8 {
    c as u8 - 33
}

#[test]
fn test_cigar_to_features() {
    let cigar = vec![op(Kind::Match, 1)];
    let sequence = b"A".to_vec();
    let quality_scores = scores("N");
    let actual = cigar_to_features(&cigar, &sequence, &quality_scores);
    let expected = Features::from(vec![Feature::ReadBase(1, b'A', score('N'))]);
    assert_eq!(actual, expected);

    let cigar = vec![op(Kind::Match, 2)];
    let sequence = b"AC".to_vec();
    let quality_scores = scores("ND");
    let actual = cigar_to_features(&cigar, &sequence, &quality_scores);
    let expected = Features::from(vec![
        Feature::Bases(1, vec![b'A', b'C']),
        Feature::Scores(1, vec![score('N'), score('D')]),
    ]);
    assert_eq!(actual, expected);

    let cigar = vec![op(Kind::Insertion, 1), op(Kind::Match, 1)];
    let sequence = b"AC".to_vec();
    let quality_scores = scores("ND");
    let actual = cigar_to_features(&cigar, &sequence, &quality_scores);
    let expected = Features::from(vec![
        Feature::InsertBase(1, b'A'),
        Feature::QualityScore(1, score('N')),
        Feature::ReadBase(2, b'C', score('D')),
    ]);
    assert_eq!(actual, expected);

    let cigar = vec![op(Kind::Insertion, 2), op(Kind::Match, 1)];
    let sequence = b"ACG".to_vec();
    let quality_scores = scores("NDL");
    let actual = cigar_to_features(&cigar, &sequence, &quality_scores);
    let expected = Features::from(vec![
        Feature::Insertion(1, vec![b'A', b'C']),
        Feature::Scores(1, vec![score('N'), score('D')]),
        Feature::ReadBase(3, b'G', score('L')),
    ]);
    assert_eq!(actual, expected);

    let cigar = vec![op(Kind::Deletion, 1), op(Kind::Match, 2)];
    let sequence = b"AC".to_vec();
    let quality_scores = scores("ND");
    let actual = cigar_to_features(&cigar, &sequence, &quality_scores);
    let expected = Features::from(vec![
        Feature::Deletion(1, 1),
        Feature::Bases(1, vec![b'A', b'C']),
        Feature::Scores(1, vec![score('N'), score('D')]),
    ]);
    assert_eq!(actual, expected);

    let cigar = vec![op(Kind::Skip, 1), op(Kind::Match, 1)];
    let sequence = b"A".to_vec();
    let quality_scores = scores("N");
    let actual = cigar_to_features(&cigar, &sequence, &quality_scores);
    let expected = Features::from(vec![
        Feature::ReferenceSkip(1, 1),
        Feature::ReadBase(1, b'A', score('N')),
    ]);
    assert_eq!(actual, expected);

    let cigar = vec![op(Kind::SoftClip, 1), op(Kind::Match, 1)];
    let sequence = b"AC".to_vec();
    let quality_scores = scores("ND");
    let actual = cigar_to_features(&cigar, &sequence, &quality_scores);
    let expected = Features::from(vec![
        Feature::SoftClip(1, vec![b'A']),
        Feature::QualityScore(1, score('N')),
        Feature::ReadBase(2, b'C', score('D')),
    ]);
    assert_eq!(actual, expected);

    let cigar = vec![op(Kind::SoftClip, 2), op(Kind::Match, 1)];
    let sequence = b"ACG".to_vec();
    let quality_scores = scores("NDL");
    let actual = cigar_to_features(&cigar, &sequence, &quality_scores);
    let expected = Features::from(vec![
        Feature::SoftClip(1, vec![b'A', b'C']),
        Feature::Scores(1, vec![score('N'), score('D')]),
        Feature::ReadBase(3, b'G', score('L')),
    ]);
    assert_eq!(actual, expected);

    let cigar = vec![op(Kind::HardClip, 1), op(Kind::Match, 1)];
    let sequence = b"A".to_vec();
    let quality_scores = scores("N");
    let actual = cigar_to_features(&cigar, &sequence, &quality_scores);
    let expected = Features::from(vec![
        Feature::HardClip(1, 1),
        Feature::ReadBase(1, b'A', score('N')),
    ]);
    assert_eq!(actual, expected);

    let cigar = vec![op(Kind::Pad, 1), op(Kind::Match, 1)];
    let sequence = b"A".to_vec();
    let quality_scores = scores("N");
    let actual = cigar_to_features(&cigar, &sequence, &quality_scores);
    let expected = Features::from(vec![
        Feature::Padding(1, 1),
        Feature::ReadBase(1, b'A', score('N')),
    ]);
    assert_eq!(actual, expected);
}

#[test]
fn from_cigar_matches_and_mismatches() {
    let cigar = vec![op(Kind::SequenceMatch, 1), op(Kind::SequenceMismatch, 2)];
    let features = Features::from_cigar(&cigar, &b"ACG".to_vec(), &vec![1, 2, 3]);
    assert_eq!(
        features.as_slice(),
        &[
            Feature::ReadBase(1, b'A', 1),
            Feature::Bases(2, vec![b'C', b'G']),
            Feature::Scores(2, vec![2, 3]),
        ][..]
    );
}
