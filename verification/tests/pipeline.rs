use lib::io::is_whitespace;
use lib::pipeline::{parse, seg_to_args, Pipeline, Segment, MAX_ARGS_PER, MAX_SEGMENTS};

fn words(line: &[u8], p: &Pipeline, k: usize) -> Vec<Vec<u8>> {
    seg_to_args(line, &p.segments[k])
}

#[test]
fn simple_command() {
    let line = b"echo hello world";
    let p = parse(line);
    assert_eq!(p.segments.len(), 1);
    assert_eq!(p.segments[0].args, vec![(0, 4), (5, 5), (11, 5)]);
    assert_eq!(p.stdout_file, (0, 0));
    assert_eq!(p.stdin_file, (0, 0));
    assert!(!p.background);
}

#[test]
fn pipe_and_redirections() {
    let line = b"cat < in.txt | grep x > out.txt";
    let p = parse(line);
    assert_eq!(p.segments.len(), 2);
    assert_eq!(words(line, &p, 0), vec![b"cat".to_vec()]);
    assert_eq!(words(line, &p, 1), vec![b"grep".to_vec(), b"x".to_vec()]);
    assert_eq!(&line[p.stdin_file.0..p.stdin_file.0 + p.stdin_file.1], b"in.txt");
    assert_eq!(&line[p.stdout_file.0..p.stdout_file.0 + p.stdout_file.1], b"out.txt");
    assert!(!p.background);
}

#[test]
fn redirection_without_space() {
    let line = b"ls >out";
    let p = parse(line);
    assert_eq!(p.segments.len(), 1);
    assert_eq!(p.segments[0].args, vec![(0, 2)]);
    assert_eq!(p.stdout_file, (4, 3));
}

#[test]
fn redirection_with_no_target_is_empty() {
    let line = b"ls >";
    let p = parse(line);
    assert_eq!(p.segments[0].args, vec![(0, 2)]);
    assert_eq!(p.stdout_file, (4, 0));
}

#[test]
fn operator_inside_word_stays_in_word() {
    let line = b"a>b";
    let p = parse(line);
    assert_eq!(p.segments[0].args, vec![(0, 3)]);
    assert_eq!(p.stdout_file, (0, 0));
}

#[test]
fn trailing_ampersand_sets_background() {
    let line = b"sleep 5 &";
    let p = parse(line);
    assert!(p.background);
    assert_eq!(p.segments.len(), 1);
    assert_eq!(words(line, &p, 0), vec![b"sleep".to_vec(), b"5".to_vec()]);
}

#[test]
fn ampersand_inside_word_is_an_argument() {
    let line = b"echo a&";
    let p = parse(line);
    assert!(!p.background);
    assert_eq!(words(line, &p, 0), vec![b"echo".to_vec(), b"a&".to_vec()]);
}

#[test]
fn lone_ampersand_gives_empty_segment() {
    let line = b"&";
    let p = parse(line);
    assert!(p.background);
    assert_eq!(p.segments.len(), 1);
    assert_eq!(p.segments[0].args.len(), 0);
}

#[test]
fn blank_lines_parse_empty() {
    for line in [&b""[..], b"   ", b" | |\t", b"\r\n"] {
        let p = parse(line);
        assert_eq!(p.segments.len(), 0);
        assert!(!p.background);
    }
}

#[test]
fn empty_segments_between_pipes_are_skipped() {
    let line = b"a || b";
    let p = parse(line);
    assert_eq!(p.segments.len(), 2);
    assert_eq!(words(line, &p, 0), vec![b"a".to_vec()]);
    assert_eq!(words(line, &p, 1), vec![b"b".to_vec()]);
}

#[test]
fn too_many_arguments_spill_into_next_segment() {
    let mut line: Vec<u8> = Vec::new();
    for i in 0..(MAX_ARGS_PER + 2) {
        if i > 0 {
            line.push(b' ');
        }
        line.push(b'a' + (i % 26) as u8);
    }
    let p = parse(&line);
    assert_eq!(p.segments.len(), 2);
    assert_eq!(p.segments[0].args.len(), MAX_ARGS_PER);
    assert_eq!(p.segments[1].args.len(), 2);
}

#[test]
fn too_many_segments_are_dropped() {
    let mut line: Vec<u8> = Vec::new();
    for _ in 0..(MAX_SEGMENTS + 3) {
        line.extend_from_slice(b"x | ");
    }
    let p = parse(&line);
    assert_eq!(p.segments.len(), MAX_SEGMENTS);
}

#[test]
fn parsed_ranges_are_words_in_order() {
    let line = b"  ls -l\t/tmp | wc -c > n.txt | sort &";
    let p = parse(line);
    let mut last_end = 0;
    for seg in p.segments.iter() {
        for &(off, len) in seg.args.iter() {
            assert!(len >= 1);
            assert!(off >= last_end);
            assert!(off + len <= line.len());
            for &b in &line[off..off + len] {
                assert!(!is_whitespace(b) && b != b'|');
            }
            last_end = off + len;
        }
    }
    assert!(p.background);
}

#[test]
fn seg_to_args_cuts_long_arguments() {
    let mut line: Vec<u8> = b"cmd ".to_vec();
    line.extend(std::iter::repeat(b'z').take(100));
    let p = parse(&line);
    let args = seg_to_args(&line, &p.segments[0]);
    assert_eq!(args.len(), 2);
    assert_eq!(args[0], b"cmd".to_vec());
    assert_eq!(args[1].len(), 63);
    assert!(args[1].iter().all(|&b| b == b'z'));
}

#[test]
fn seg_to_args_of_handmade_segment() {
    let line = b"hello world";
    let seg = Segment { args: vec![(6, 5), (0, 4)] };
    assert_eq!(seg_to_args(line, &seg), vec![b"world".to_vec(), b"hell".to_vec()]);
}

#[test]
fn whitespace_bytes() {
    assert!(is_whitespace(b' '));
    assert!(is_whitespace(b'\t'));
    assert!(is_whitespace(b'\n'));
    assert!(is_whitespace(b'\r'));
    assert!(!is_whitespace(b'a'));
    assert!(!is_whitespace(b'|'));
    assert!(!is_whitespace(0));
}

#[test]
fn appending_ampersand_sets_background() {
    for line in [&b"ls -l"[..], b"cat < a | wc > b", b"x y  ", b"a|b c"] {
        let p = parse(line);
        let mut with_amp = line.to_vec();
        with_amp.extend_from_slice(b" &");
        let q = parse(&with_amp);
        assert!(!p.background);
        assert!(q.background);
        assert_eq!(q.segments.len(), p.segments.len());
        for k in 0..p.segments.len() {
            assert_eq!(q.segments[k].args, p.segments[k].args);
        }
        assert_eq!(q.stdout_file, p.stdout_file);
        assert_eq!(q.stdin_file, p.stdin_file);
    }
}

#[test]
fn arguments_are_whole_words() {
    let line = b"cmd a|b <in c >out d";
    let p = parse(line);
    for seg in p.segments.iter() {
        for (m, &(off, len)) in seg.args.iter().enumerate() {
            assert!(off == 0 || is_whitespace(line[off - 1]) || line[off - 1] == b'|');
            let end = off + len;
            assert!(end == line.len() || is_whitespace(line[end]) || line[end] == b'|');
            assert!(line[off] != b'<' && line[off] != b'>');
            if m + 1 < seg.args.len() {
                let next = seg.args[m + 1].0;
                assert!(end < next);
                assert!(!line[end..next].contains(&b'|'));
            }
        }
    }
    assert_eq!(words(line, &p, 0), vec![b"cmd".to_vec(), b"a".to_vec()]);
    assert_eq!(words(line, &p, 1), vec![b"b".to_vec(), b"c".to_vec(), b"d".to_vec()]);
}
