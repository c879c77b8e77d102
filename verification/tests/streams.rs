use shrink_oracle::residuals::{Emission, ResidualLog, Section};
use shrink_oracle::stream::{write_stream, BlockWriter};

fn words(bytes: &[u8]) -> Vec<u32> {
    bytes.chunks_exact(4).map(|c| u32::from_le_bytes([c[0], c[1], c[2], c[3]])).collect()
}

#[test]
fn a_stream_is_a_header_and_padded_blocks() {
    let mut out: Vec<u8> = Vec::new();
    let blocks = write_stream(&mut out, &[1, 0, 0x01020304, 1], 3, &[0xaa; 32], &[0xbb; 32]);
    assert_eq!(blocks, 2);
    let mut expected: Vec<u8> = Vec::new();
    expected.extend_from_slice(b"PVRS");
    expected.extend_from_slice(&0u32.to_le_bytes());
    expected.extend_from_slice(&3u32.to_le_bytes());
    expected.extend_from_slice(&2u64.to_le_bytes());
    expected.extend_from_slice(&4u64.to_le_bytes());
    expected.extend_from_slice(&[0xaa; 32]);
    expected.extend_from_slice(&[0xbb; 32]);
    assert_eq!(expected.len(), 92);
    for v in [1u32, 0, 0x01020304, 1, 0, 0] {
        expected.extend_from_slice(&v.to_le_bytes());
    }
    assert_eq!(out, expected);
}

#[test]
fn whole_blocks_need_no_padding() {
    let mut out: Vec<u8> = Vec::new();
    assert_eq!(write_stream(&mut out, &[5, 6, 7, 8], 2, &[0; 32], &[0; 32]), 2);
    assert_eq!(words(&out[92..]), vec![5, 6, 7, 8]);
    let mut out: Vec<u8> = Vec::new();
    assert_eq!(write_stream(&mut out, &[], 4, &[0; 32], &[0; 32]), 0);
    assert_eq!(out.len(), 92);
}

#[test]
fn the_counts_are_filled_in_from_the_start_of_the_output() {
    let mut out: Vec<u8> = vec![7; 20];
    write_stream(&mut out, &[1], 1, &[0; 32], &[0; 32]);
    assert_eq!(out.len(), 20 + 92 + 4);
    assert_eq!(&out[..12], &[7; 12]);
    assert_eq!(u64::from_le_bytes(out[12..20].try_into().unwrap()), 1);
    assert_eq!(&out[20..24], &1u32.to_le_bytes());
}

#[test]
fn blocks_are_gathered_one_residual_at_a_time() {
    let mut w = BlockWriter::new(2);
    for r in [1u32, 1, 9] {
        w.emit(r);
    }
    let mut begun = BlockWriter::new(2);
    for r in [1u32, 1, 9] {
        begun.emit(r);
    }
    let (bytes, blocks) = begun.into_parts();
    assert_eq!((words(&bytes), blocks), (vec![1, 1], 1));
    w.finish();
    let (bytes, blocks) = w.into_parts();
    assert_eq!((words(&bytes), blocks), (vec![1, 1, 9, 0], 2));
}

#[test]
fn the_log_remembers_the_first_residual_that_is_not_zero() {
    let mut log = ResidualLog::new();
    log.emit(Section::Select, Some(0), 0);
    assert!(log.first_nonzero.is_none());
    log.emit_row(Section::ExtAlu, Some(3), &[0, 1, 1]);
    log.emit(Section::Permutation, None, 1);
    assert_eq!(log.residuals, vec![0, 0, 1, 1, 1]);
    let first = log.first_nonzero.unwrap();
    assert_eq!(first.index, 2);
    assert_eq!(
        first.emission,
        Emission { section: Section::ExtAlu, row: Some(3), value: 1 }
    );
}
