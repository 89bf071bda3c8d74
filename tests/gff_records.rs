use std::io::BufRead;

use seqidx::gff::{is_fasta_directive, Line, Reader};

/// Counts the record lines of a reader up to the end of input or the `##FASTA` directive.
fn count_records<R: BufRead>(reader: &mut Reader<R>) -> usize {
    let mut n = 0;
    let mut line = Line::Comment(String::new());
    while reader.read_lazy_line(&mut line).unwrap() > 0 {
        if is_fasta_directive(&line) {
            break;
        }
        if let Line::Record(_) = line {
            n += 1;
        }
    }
    n
}

#[test]
fn test_records() {
    let data = b"\
##gff-version 3
sq0\tNOODLES\tgene\t8\t13\t.\t+\t.\tgene_id=ndls0;gene_name=gene0
";

    let mut reader = Reader::new(&data[..]);
    let n = count_records(&mut reader);

    assert_eq!(n, 1);
}

#[test]
fn test_records_with_fasta_directive() {
    let data = b"\
##gff-version 3
sq0\tNOODLES\tgene\t8\t13\t.\t+\t.\tgene_id=ndls0;gene_name=gene0
##FASTA
>sq0
ACGT
";

    let mut reader = Reader::new(&data[..]);
    let n = count_records(&mut reader);

    assert_eq!(n, 1);
}

#[test]
fn fasta_directive_is_recognized() {
    assert!(is_fasta_directive(&Line::Directive(String::from("##FASTA"))));
    assert!(!is_fasta_directive(&Line::Directive(String::from("##FASTQ"))));
    assert!(!is_fasta_directive(&Line::Comment(String::from("##FASTA"))));
    assert!(!is_fasta_directive(&Line::Directive(String::from("##gff-version 3"))));
}
