use rowstats::chunks::compute_chunks;
use rowstats::output::{render, sorted_rows};
use rowstats::parser::process_chunk;
use rowstats::table::Table;

const SLACK: usize = 50;

/// One pass over the whole input, as a single chunk.
fn run_single(input: &[u8]) -> Option<Vec<u8>> {
    let table = process_chunk(&input.to_vec(), true, input.len())?;
    let rows = sorted_rows(table);
    Some(render(&rows).to_vec())
}

/// The chunked pipeline: per-chunk windows with slack, one scan each,
/// tables merged in chunk order.
fn run_chunked(input: &[u8], workers: u64) -> Option<Vec<u8>> {
    let chunks = compute_chunks(input.len() as u64, workers);
    let mut global = Table::new();
    for (start, size) in chunks {
        let start = start as usize;
        let size = size as usize;
        let base = if start == 0 { 0 } else { start - 1 };
        let limit = size + if start == 0 { 0 } else { 1 };
        let hi = (base + limit + SLACK).min(input.len());
        let buf = input[base..hi].to_vec();
        let partial = process_chunk(&buf, start == 0, limit)?;
        if !global.compatible(&partial) {
            return None;
        }
        global.merge_into(partial);
    }
    let rows = sorted_rows(global);
    Some(render(&rows).to_vec())
}

#[test]
fn scenario_two_cities() {
    let input = b"Paris;10.0\nParis;20.0\nOslo;-5.5\n";
    let expected = b"Oslo;-5.5;-5.5;-5.5\nParis;10.0;15.0;20.0\n".to_vec();
    assert_eq!(run_single(input), Some(expected.clone()));
    for k in 1..=5 {
        assert_eq!(run_chunked(input, k), Some(expected.clone()), "workers = {}", k);
    }
}

#[test]
fn scenario_uneven_chunks_match_single_pass() {
    // 32 bytes over 3 workers: 10 + 10 + 12, remainder to the last chunk.
    let input = b"Paris;10.0\nParis;20.0\nOslo;-5.5\n";
    assert_eq!(input.len(), 32);
    let single = run_single(input).unwrap();
    assert_eq!(run_chunked(input, 3), Some(single));
}

#[test]
fn terminator_exactly_on_chunk_boundary() {
    // Two 7-byte records over 2 chunks of 7 bytes: the first record's
    // terminator is the last byte of the first chunk.
    let input = b"ab;1.0\ncd;2.0\n";
    assert_eq!(input.len(), 14);
    let expected = b"ab;1.0;1.0;1.0\ncd;2.0;2.0;2.0\n".to_vec();
    assert_eq!(run_chunked(input, 2), Some(expected.clone()));
    assert_eq!(run_single(input), Some(expected));
}

#[test]
fn record_straddling_chunk_boundary_counted_once() {
    let input = b"alpha;1.0\nbeta;2.0\ngamma;-3.5\nalpha;3.0\n";
    let single = run_single(input).unwrap();
    for k in 1..=(input.len() as u64) {
        assert_eq!(run_chunked(input, k), Some(single.clone()), "workers = {}", k);
    }
}

#[test]
fn merge_is_commutative_on_tables() {
    let a = process_chunk(&b"x;1.0\ny;2.0\n".to_vec(), true, 12).unwrap();
    let b = process_chunk(&b"y;4.0\nz;-1.0\n".to_vec(), true, 13).unwrap();
    let a2 = process_chunk(&b"x;1.0\ny;2.0\n".to_vec(), true, 12).unwrap();
    let b2 = process_chunk(&b"y;4.0\nz;-1.0\n".to_vec(), true, 13).unwrap();

    let mut ab = a;
    assert!(ab.compatible(&b));
    ab.merge_into(b);
    let mut ba = b2;
    assert!(ba.compatible(&a2));
    ba.merge_into(a2);

    let out_ab = render(&sorted_rows(ab));
    let out_ba = render(&sorted_rows(ba));
    assert_eq!(out_ab, out_ba);
    assert_eq!(
        String::from_utf8(out_ab).unwrap(),
        "x;1.0;1.0;1.0\ny;2.0;3.0;4.0\nz;-1.0;-1.0;-1.0\n"
    );
}

#[test]
fn output_is_strictly_ascending_by_name() {
    let input = b"delta;1.0\nalpha;2.0\ncharlie;3.0\nbravo;4.0\nalpha;5.0\n";
    let out = run_single(input).unwrap();
    let text = String::from_utf8(out).unwrap();
    let names: Vec<&str> = text
        .lines()
        .map(|l| l.split(';').next().unwrap())
        .collect();
    assert_eq!(names, vec!["alpha", "bravo", "charlie", "delta"]);
    for w in names.windows(2) {
        assert!(w[0] < w[1]);
    }
}

#[test]
fn mean_truncates_toward_zero() {
    // -1.5 and -2.0 sum to -3.5; the mean -1.75 prints truncated toward
    // zero as -1.7.
    let out = run_single(b"a;-1.5\na;-2.0\n").unwrap();
    assert_eq!(String::from_utf8(out).unwrap(), "a;-2.0;-1.7;-1.5\n");
    let out = run_single(b"a;1.5\na;2.0\n").unwrap();
    assert_eq!(String::from_utf8(out).unwrap(), "a;1.5;1.7;2.0\n");
}

#[test]
fn min_and_max_track_extremes() {
    let out = run_single(b"k;5.0\nk;-5.0\nk;0.0\nk;2.5\n").unwrap();
    assert_eq!(String::from_utf8(out).unwrap(), "k;-5.0;0.6;5.0\n");
}

#[test]
fn empty_input_yields_empty_output() {
    assert_eq!(run_single(b""), Some(Vec::new()));
    assert_eq!(run_chunked(b"", 4), Some(Vec::new()));
}

#[test]
fn unterminated_record_is_an_error() {
    assert!(process_chunk(&b"Paris;10.0".to_vec(), true, 10).is_none());
}

#[test]
fn missing_delimiter_is_an_error() {
    assert!(process_chunk(&b"Paris10.0\n".to_vec(), true, 10).is_none());
}

#[test]
fn malformed_value_is_an_error() {
    assert!(process_chunk(&b"Paris;1x.0\n".to_vec(), true, 11).is_none());
    assert!(process_chunk(&b"Paris;10\n".to_vec(), true, 9).is_none());
    assert!(process_chunk(&b"Paris;9999999999.9\n".to_vec(), true, 19).is_none());
}

#[test]
fn invalid_utf8_name_is_an_error() {
    // 0xFF is never valid UTF-8.
    let mut input = vec![0xFFu8];
    input.extend_from_slice(b";1.0\n");
    assert!(process_chunk(&input, true, input.len()).is_none());
    // An overlong encoding (0xC0 0x80) is rejected.
    let mut input = vec![0xC0u8, 0x80];
    input.extend_from_slice(b";1.0\n");
    assert!(process_chunk(&input, true, input.len()).is_none());
    // A surrogate encoding (0xED 0xA0 0x80) is rejected.
    let mut input = vec![0xEDu8, 0xA0, 0x80];
    input.extend_from_slice(b";1.0\n");
    assert!(process_chunk(&input, true, input.len()).is_none());
    // A truncated multi-byte character is rejected.
    let mut input = vec![0xC3u8];
    input.extend_from_slice(b";1.0\n");
    assert!(process_chunk(&input, true, input.len()).is_none());
}

#[test]
fn multi_byte_names_are_accepted() {
    // Two-, three- and four-byte characters; output in byte order of the
    // names' UTF-8 encodings.
    let input = "Zürich;10.0\n東京;20.0\n\u{1F30D};0.5\n".as_bytes();
    let expected = "Zürich;10.0;10.0;10.0\n東京;20.0;20.0;20.0\n\u{1F30D};0.5;0.5;0.5\n";
    let out = run_single(input).unwrap();
    let text = String::from_utf8(out).unwrap();
    assert_eq!(text, expected);
}

#[test]
fn record_past_limit_is_left_to_the_next_chunk() {
    // Only the first record starts before the 7-byte limit.
    let table = process_chunk(&b"ab;1.0\ncd;2.0\n".to_vec(), true, 7).unwrap();
    let out = render(&sorted_rows(table));
    assert_eq!(String::from_utf8(out).unwrap(), "ab;1.0;1.0;1.0\n");
}
