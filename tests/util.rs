use astarpa2::util::{mutations, to_string, MutationConfig, Mutations};

#[test]
fn test_mutations() {
    let kmer = 0b00011011usize;
    let k = 4;
    let ms = mutations(k, kmer, MutationConfig::default(), true);
    // substitution
    assert!(ms.substitutions.contains(&0b11011011));
    // insertion
    assert!(ms.insertions.contains(&0b0011011011));
    // deletion
    assert!(ms.deletions.contains(&0b000111));
    assert_eq!(
        ms,
        Mutations {
            deletions: [6, 7, 11, 27].to_vec(),
            substitutions: [11, 19, 23, 24, 25, 26, 31, 43, 59, 91, 155, 219].to_vec(),
            insertions: [
                27, 75, 91, 99, 103, 107, 108, 109, 110, 111, 123, 155, 219, 283, 539, 795
            ]
            .to_vec(),
        }
    );
}

#[test]
fn kmer_removal() {
    let kmer = 0b00011011usize;
    let k = 4;
    let ms = mutations(k, kmer, MutationConfig::default(), true);
    assert!(!ms.substitutions.contains(&kmer));
    assert!(ms.deletions.contains(&kmer));
    assert!(ms.insertions.contains(&kmer));
}

#[test]
fn mutations_without_dedup_keep_every_edit() {
    let ms = mutations(3, 0b100100, MutationConfig::default(), false);
    assert_eq!(ms.substitutions.len(), 12);
    assert_eq!(ms.insertions.len(), 16);
    assert_eq!(ms.deletions.len(), 3);
    // Substituting base 0 by each of the four bases, in order.
    assert_eq!(&ms.substitutions[0..4], &[0b100100, 0b100101, 0b100110, 0b100111]);
    // Deleting base 0, 1 and 2.
    assert_eq!(ms.deletions, vec![0b1001, 0b1000, 0b0100]);
}

#[test]
fn mutations_respect_config() {
    let config = MutationConfig {
        insert_at_start: false,
        insert_at_end: false,
        delete_at_start: false,
        delete_at_end: false,
    };
    let ms = mutations(3, 0b100100, config, false);
    assert_eq!(ms.insertions.len(), 8);
    assert_eq!(ms.deletions.len(), 1);
}

#[test]
fn sequence_to_string() {
    assert_eq!(to_string(b"ACGT"), "ACGT");
    assert_eq!(to_string(b""), "");
    assert_eq!(astarpa2::to_string(b"acg"), "acg");
}

#[test]
fn mutations_of_short_kmers() {
    let config = MutationConfig {
        insert_at_start: true,
        insert_at_end: true,
        delete_at_start: true,
        delete_at_end: false,
    };
    let ms = mutations(1, 0b10, config, false);
    assert_eq!(ms.substitutions, vec![0, 1, 2, 3]);
    assert_eq!(ms.insertions.len(), 8);
    assert!(ms.deletions.is_empty());
    let ms = mutations(0, 0, MutationConfig::default(), true);
    assert!(ms.substitutions.is_empty());
    assert_eq!(ms.insertions, vec![0, 1, 2, 3]);
    assert!(ms.deletions.is_empty());
}

#[test]
fn to_string_takes_utf8() {
    assert_eq!(to_string("dé".as_bytes()), "dé");
    assert_eq!(astarpa2::to_string("ACGT→".as_bytes()), "ACGT→");
}

#[test]
fn mutations_of_long_kmers() {
    let kmer: usize = (1usize << 61) | 0b11;
    let ms = mutations(31, kmer, MutationConfig::default(), false);
    assert_eq!(ms.substitutions.len(), 4 * 31);
    assert_eq!(ms.insertions.len(), 4 * 32);
    assert_eq!(ms.deletions.len(), 31);
    // Substituting the last base by 0 clears its bits.
    assert_eq!(ms.substitutions[4 * 30], 0b11);
    // Deleting the first base shifts the rest down.
    assert_eq!(ms.deletions[0], kmer >> 2);
}
