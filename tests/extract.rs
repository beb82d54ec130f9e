use btwn::extract::Extractor;
use btwn::matcher::{find_start, scan_from};
use btwn::RangeType;

const CHUNK: usize = 1024;

fn run_chunked(start: &str, end: &str, mode: RangeType, input: &[u8], chunk: usize) -> Vec<u8> {
    let mut ex = Extractor::new(start.as_bytes().to_vec(), end.as_bytes().to_vec(), mode);
    let mut out = Vec::new();
    for piece in input.chunks(chunk) {
        out.extend(ex.feed(piece));
        if ex.is_done() {
            break;
        }
    }
    out
}

fn run(start: &str, end: &str, mode: RangeType, input: &str) -> String {
    String::from_utf8(run_chunked(start, end, mode, input.as_bytes(), CHUNK)).unwrap()
}

const MODES: [RangeType; 4] = [
    RangeType::InclIncl,
    RangeType::InclExcl,
    RangeType::ExclIncl,
    RangeType::ExclExcl,
];

#[test]
fn both_markers_all_modes() {
    let input = "startHELLOend";
    assert_eq!(run("start", "end", RangeType::ExclExcl, input), "HELLO");
    assert_eq!(run("start", "end", RangeType::InclIncl, input), "startHELLOend");
    assert_eq!(run("start", "end", RangeType::InclExcl, input), "startHELLO");
    assert_eq!(run("start", "end", RangeType::ExclIncl, input), "HELLOend");
}

#[test]
fn single_byte_markers() {
    assert_eq!(run("a", "c", RangeType::ExclExcl, "aXbYc"), "XbY");
    assert_eq!(run("a", "c", RangeType::InclIncl, "zaXbYcz"), "aXbYc");
}

#[test]
fn only_first_occurrence() {
    assert_eq!(run("[", "]", RangeType::ExclExcl, "x[one]y[two]z"), "one");
}

#[test]
fn empty_start_begins_at_first_byte() {
    assert_eq!(run("", "X", RangeType::InclIncl, "abcXYZ"), "abcX");
    assert_eq!(run("", "X", RangeType::ExclIncl, "abcXYZ"), "abcX");
    assert_eq!(run("", "X", RangeType::InclExcl, "abcXYZ"), "abc");
    assert_eq!(run("", "X", RangeType::ExclExcl, "abcXYZ"), "abc");
}

#[test]
fn empty_end_copies_to_end_of_input() {
    let mut input = vec![b'.'; 10];
    input.push(b'S');
    for i in 0..3000u32 {
        input.push(b'a' + (i % 26) as u8);
    }
    let rest = input[11..].to_vec();
    let mut with_start = vec![b'S'];
    with_start.extend(&rest);
    assert_eq!(run_chunked("S", "", RangeType::ExclIncl, &input, CHUNK), rest);
    assert_eq!(run_chunked("S", "", RangeType::ExclExcl, &input, CHUNK), rest);
    assert_eq!(run_chunked("S", "", RangeType::InclIncl, &input, CHUNK), with_start);
    assert_eq!(run_chunked("S", "", RangeType::InclExcl, &input, CHUNK), with_start);
}

#[test]
fn both_markers_empty_copies_everything() {
    let input: Vec<u8> = (0..2500u32).map(|i| (i % 251) as u8).collect();
    for mode in MODES {
        assert_eq!(run_chunked("", "", mode, &input, CHUNK), input);
    }
}

#[test]
fn missing_start_writes_nothing() {
    for mode in MODES {
        assert_eq!(run("start", "end", mode, "no markers here end"), "");
    }
}

#[test]
fn missing_end_writes_rest() {
    assert_eq!(run("START", "END", RangeType::ExclExcl, "xxSTARTabcdef"), "abcdef");
    assert_eq!(run("START", "END", RangeType::ExclIncl, "xxSTARTabcdef"), "abcdef");
    assert_eq!(run("START", "END", RangeType::InclExcl, "xxSTARTabcdef"), "STARTabcdef");
    assert_eq!(run("START", "END", RangeType::InclIncl, "xxSTARTabcdEN"), "STARTabcdEN");
}

#[test]
fn start_marker_across_reads() {
    let mut input = vec![b'x'; 1022];
    input.extend(b"<<>>inside||tail");
    assert_eq!(run_chunked("<<>>", "||", RangeType::ExclExcl, &input, CHUNK), b"inside".to_vec());
    assert_eq!(run_chunked("<<>>", "||", RangeType::InclIncl, &input, CHUNK), b"<<>>inside||".to_vec());
}

#[test]
fn end_marker_across_reads_inclusive() {
    let mut input = vec![b'a'; 1000];
    input.push(b'S');
    input.extend(vec![b'b'; 21]);
    input.extend(b"ENDzz");
    let mut expected = vec![b'b'; 21];
    expected.extend(b"END");
    assert_eq!(run_chunked("S", "END", RangeType::ExclIncl, &input, CHUNK), expected);
}

#[test]
fn end_marker_across_reads_exclusive() {
    // The end marker starts two bytes before the read boundary: those two
    // bytes were written with the first read.
    let mut input = vec![b'a'; 1000];
    input.push(b'S');
    input.extend(vec![b'b'; 21]);
    input.extend(b"ENDzz");
    let mut expected = vec![b'b'; 21];
    expected.extend(b"EN");
    assert_eq!(run_chunked("S", "END", RangeType::ExclExcl, &input, CHUNK), expected);
    assert_eq!(run_chunked("S", "END", RangeType::ExclExcl, &input, 4096), vec![b'b'; 21]);
}

#[test]
fn end_marker_right_after_start() {
    assert_eq!(run("<", ">", RangeType::ExclExcl, "a<>b"), "");
    assert_eq!(run("<", ">", RangeType::InclExcl, "a<>b"), "<");
    assert_eq!(run("<", ">", RangeType::ExclIncl, "a<>b"), ">");
}

#[test]
fn self_overlapping_markers() {
    assert_eq!(run("aa", "aa", RangeType::ExclExcl, "aaaa"), "");
    assert_eq!(run("aa", "aa", RangeType::InclIncl, "aaaa"), "aaaa");
    assert_eq!(run("aa", "aa", RangeType::ExclIncl, "aaaaa"), "aa");
}

#[test]
fn mismatch_does_not_recheck_byte() {
    // After "a" matched, the second "a" breaks the match and is not tried
    // as the first byte of a new one, so "ab" is never seen.
    assert_eq!(run("ab", "c", RangeType::ExclExcl, "aabXc"), "");
    assert_eq!(run("ab", "c", RangeType::ExclExcl, "xabXc"), "X");
}

#[test]
fn same_input_same_output() {
    let input: Vec<u8> = (0..5000u32).map(|i| b"abcS<>E"[(i % 7) as usize]).collect();
    for mode in MODES {
        let a = run_chunked("S<", "E", mode, &input, CHUNK);
        let b = run_chunked("S<", "E", mode, &input, CHUNK);
        assert_eq!(a, b);
    }
}

#[test]
fn one_byte_reads_match_one_read() {
    let input = b"..start[payload]end..";
    for mode in [RangeType::InclIncl, RangeType::ExclIncl] {
        assert_eq!(
            run_chunked("start", "end", mode, input, 1),
            run_chunked("start", "end", mode, input, CHUNK)
        );
    }
}

#[test]
fn no_output_after_done() {
    let mut ex = Extractor::new(b"<".to_vec(), b">".to_vec(), RangeType::ExclExcl);
    assert_eq!(ex.feed(b"x<ab>c"), b"ab".to_vec());
    assert!(ex.is_done());
    assert_eq!(ex.feed(b"<more>"), Vec::<u8>::new());
}

#[test]
fn find_start_in_one_chunk() {
    assert_eq!(find_start(b"ll", 0, b"hello"), (true, 4));
    assert_eq!(find_start(b"lo", 0, b"hello"), (false, 0));
    assert_eq!(find_start(b"h", 0, b"hello"), (true, 1));
}

#[test]
fn find_start_carries_progress() {
    assert_eq!(find_start(b"abc", 0, b"xxab"), (false, 2));
    assert_eq!(find_start(b"abc", 2, b"cd"), (true, 1));
    assert_eq!(find_start(b"abc", 2, b"xd"), (false, 0));
}

#[test]
fn scan_from_offset() {
    assert_eq!(scan_from(b"end", 0, b"endXXend", 1), (true, 8));
    assert_eq!(scan_from(b"end", 0, b"endXX", 3), (false, 0));
    assert_eq!(scan_from(b"end", 1, b"ndX", 0), (true, 2));
}

#[test]
fn mode_flags() {
    assert!(RangeType::InclIncl.includes_start() && RangeType::InclIncl.includes_end());
    assert!(RangeType::InclExcl.includes_start() && !RangeType::InclExcl.includes_end());
    assert!(!RangeType::ExclIncl.includes_start() && RangeType::ExclIncl.includes_end());
    assert!(!RangeType::ExclExcl.includes_start() && !RangeType::ExclExcl.includes_end());
}
