use station_agg::chunk::{next_chunk_end, split_into_chunks};
use station_agg::pipeline::run;

#[test]
fn chunks_end_on_separators() {
    let data = b"aa\nbb\ncc";
    let chunks = split_into_chunks(data, 1);
    let views: Vec<&[u8]> = chunks.iter().map(|c| c.as_slice()).collect();
    assert_eq!(views, vec![b"aa\n".as_slice(), b"bb\n".as_slice(), b"cc".as_slice()]);
}

#[test]
fn chunk_target_extends_to_next_separator() {
    let data = b"aa\nbb\ncc";
    let chunks = split_into_chunks(data, 4);
    let views: Vec<&[u8]> = chunks.iter().map(|c| c.as_slice()).collect();
    assert_eq!(views, vec![b"aa\nbb\n".as_slice(), b"cc".as_slice()]);
}

#[test]
fn one_big_chunk_when_target_covers_input() {
    let data = b"aa\nbb\ncc";
    let chunks = split_into_chunks(data, 100);
    assert_eq!(chunks.len(), 1);
    assert_eq!(chunks[0].as_slice(), data.as_slice());
}

#[test]
fn chunks_concatenate_to_input() {
    let data = b"one;1.0\ntwo;2.0\nthree;3.0\nfour;4.0";
    for target in 1..20usize {
        let chunks = split_into_chunks(data, target);
        let mut whole: Vec<u8> = Vec::new();
        for c in &chunks {
            assert!(!c.is_empty());
            whole.extend_from_slice(c.as_slice());
        }
        assert_eq!(whole.as_slice(), data.as_slice());
        for c in &chunks[..chunks.len() - 1] {
            assert_eq!(*c.last().unwrap(), b'\n');
        }
    }
}

#[test]
fn next_chunk_end_stops_after_separator() {
    let data = b"ab\ncd\nef";
    assert_eq!(next_chunk_end(data, 0, 1), 3);
    assert_eq!(next_chunk_end(data, 0, 3), 3);
    assert_eq!(next_chunk_end(data, 0, 4), 6);
    assert_eq!(next_chunk_end(data, 3, 2), 6);
    assert_eq!(next_chunk_end(data, 6, 2), 8);
    assert_eq!(next_chunk_end(data, 0, 100), 8);
}

#[test]
fn rechunking_never_changes_output() {
    let data = b"sao paulo;12.3\nberlin;-4.5\noslo;0.0\nberlin;30.1\nsao paulo;-0.2\n";
    let reference = run(data, 1);
    for target in [2usize, 3, 5, 7, 16, 1000] {
        assert_eq!(run(data, target), reference);
    }
}
