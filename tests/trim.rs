use fxtools::record::Record;
use fxtools::trim::Trimmer;

#[test]
fn trims_at_first_adapter_occurrence() {
    let mut trimmer = Trimmer::new("GG".to_string(), false);
    let r = Record::fasta(b"r1".to_vec(), b"ACGGTTGG".to_vec());
    assert_eq!(trimmer.trim(&r), Some(b">r1\nGGTTGG\n".to_vec()));
    assert_eq!(trimmer.num_records(), 1);
    assert_eq!(trimmer.num_trimmed(), 1);
}

#[test]
fn trims_adapter_itself_when_asked() {
    let mut trimmer = Trimmer::new("GG".to_string(), true);
    let r = Record::fastq(b"r1".to_vec(), b"ACGGTT".to_vec(), b"+".to_vec(), b"ABCDEF".to_vec())
        .unwrap();
    assert_eq!(trimmer.trim(&r), Some(b"@r1\nTT\n+\nEF\n".to_vec()));
}

#[test]
fn record_without_adapter_is_skipped() {
    let mut trimmer = Trimmer::new("GGG".to_string(), false);
    let r = Record::fasta(b"r1".to_vec(), b"ACGGTT".to_vec());
    assert_eq!(trimmer.trim(&r), None);
    assert_eq!(trimmer.num_records(), 1);
    assert_eq!(trimmer.num_trimmed(), 0);
}
