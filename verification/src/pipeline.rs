//! Splitting a command line into a pipeline of segments, with optional
//! `>` / `<` redirections and a trailing `&` for background execution.
use vstd::prelude::*;
use crate::io::{is_whitespace, spec_is_whitespace};

verus! {

/// Most segments (commands separated by `|`) that a pipeline holds.
pub const MAX_SEGMENTS: usize = 8;

/// Most arguments that one segment holds.
pub const MAX_ARGS_PER: usize = 16;

pub const PIPE: u8 = 0x7C;
pub const GT: u8 = 0x3E;
pub const LT: u8 = 0x3C;
pub const AMP: u8 = 0x26;

/// One command of a pipeline: its arguments, each an `(offset, length)`
/// range of the parsed line.
pub struct Segment {
    pub args: Vec<(usize, usize)>,
}

/// A parsed command line. Every range refers to the line it was parsed from.
pub struct Pipeline {
    pub segments: Vec<Segment>,
    /// Target of `>`, as a range of the line; `(0, 0)` when absent.
    pub stdout_file: (usize, usize),
    /// Source of `<`, as a range of the line; `(0, 0)` when absent.
    pub stdin_file: (usize, usize),
    /// Whether the line ended in a lone `&`.
    pub background: bool,
}

/// The mathematical content of a `Pipeline`.
pub struct PipelineView {
    pub segments: Seq<Seq<(usize, usize)>>,
    pub stdout_file: (usize, usize),
    pub stdin_file: (usize, usize),
    pub background: bool,
}

pub open spec fn segments_view(segs: Seq<Segment>) -> Seq<Seq<(usize, usize)>> {
    segs.map_values(|seg: Segment| seg.args@)
}

impl View for Pipeline {
    type V = PipelineView;

    open spec fn view(&self) -> PipelineView {
        PipelineView {
            segments: segments_view(self.segments@),
            stdout_file: self.stdout_file,
            stdin_file: self.stdin_file,
            background: self.background,
        }
    }
}

pub open spec fn ws_pred() -> spec_fn(u8) -> bool {
    |b: u8| spec_is_whitespace(b)
}

pub open spec fn sep_pred() -> spec_fn(u8) -> bool {
    |b: u8| spec_is_whitespace(b) || b == PIPE
}

/// A byte that may stand inside a word: neither whitespace nor `|`.
pub open spec fn is_word_byte(b: u8) -> bool {
    !spec_is_whitespace(b) && b != PIPE
}

pub open spec fn word_pred() -> spec_fn(u8) -> bool {
    |b: u8| is_word_byte(b)
}

/// The first position at or after `i` whose byte does not satisfy `p`
/// (or the end of `s`).
pub open spec fn scan_while(s: Seq<u8>, i: int, p: spec_fn(u8) -> bool) -> int
    decreases s.len() - i,
{
    if 0 <= i < s.len() && p(s[i]) {
        scan_while(s, i + 1, p)
    } else {
        i
    }
}

pub proof fn lemma_scan_while(s: Seq<u8>, i: int, p: spec_fn(u8) -> bool)
    requires
        0 <= i <= s.len(),
    ensures
        i <= scan_while(s, i, p) <= s.len(),
        forall|k: int| i <= k < scan_while(s, i, p) ==> #[trigger] p(s[k]),
        scan_while(s, i, p) < s.len() ==> !p(s[scan_while(s, i, p)]),
    decreases s.len() - i,
{
    if i < s.len() && p(s[i]) {
        lemma_scan_while(s, i + 1, p);
    }
}

/// Scanner state inside one segment.
pub struct SegScan {
    pub pos: int,
    pub args: Seq<(usize, usize)>,
    pub stdout_file: (usize, usize),
    pub stdin_file: (usize, usize),
}

/// Reads the words of one segment from `st.pos` on: stops at a `|`, at the
/// end of the line, or once the segment holds `MAX_ARGS_PER` arguments.
/// A `>` or `<` takes the next word (possibly empty) as the redirection
/// target instead of an argument.
pub open spec fn scan_segment(s: Seq<u8>, st: SegScan) -> SegScan
    decreases s.len() - st.pos,
{
    if 0 <= st.pos < s.len() && s[st.pos] != PIPE && st.args.len() < MAX_ARGS_PER {
        let j = scan_while(s, st.pos, ws_pred());
        proof {
            lemma_scan_while(s, st.pos, ws_pred());
        }
        if j >= s.len() || s[j] == PIPE {
            SegScan { pos: j, args: st.args, stdout_file: st.stdout_file, stdin_file: st.stdin_file }
        } else if s[j] == GT || s[j] == LT {
            let k = scan_while(s, j + 1, ws_pred());
            proof {
                lemma_scan_while(s, j + 1, ws_pred());
                lemma_scan_while(s, k, word_pred());
            }
            let e = scan_while(s, k, word_pred());
            let target = (k as usize, (e - k) as usize);
            if s[j] == GT {
                scan_segment(
                    s,
                    SegScan { pos: e, args: st.args, stdout_file: target, stdin_file: st.stdin_file },
                )
            } else {
                scan_segment(
                    s,
                    SegScan { pos: e, args: st.args, stdout_file: st.stdout_file, stdin_file: target },
                )
            }
        } else {
            let e = scan_while(s, j, word_pred());
            proof {
                lemma_scan_while(s, j, word_pred());
                assert(word_pred()(s[j]));
            }
            scan_segment(
                s,
                SegScan {
                    pos: e,
                    args: st.args.push((j as usize, (e - j) as usize)),
                    stdout_file: st.stdout_file,
                    stdin_file: st.stdin_file,
                },
            )
        }
    } else {
        st
    }
}


/// `t` is a range of `s` made only of word bytes.
pub open spec fn is_word_range(s: Seq<u8>, t: (usize, usize)) -> bool {
    &&& t.0 + t.1 <= s.len()
    &&& forall|k: int| t.0 <= k < t.0 + t.1 ==> is_word_byte(#[trigger] s[k])
}

/// `t` is a nonempty range of `s` made only of word bytes.
pub open spec fn is_arg_range(s: Seq<u8>, t: (usize, usize)) -> bool {
    is_word_range(s, t) && t.1 >= 1
}

/// Every argument of `args` is a nonempty word of `s`, and there are at most
/// `MAX_ARGS_PER` of them.
pub open spec fn args_wf(s: Seq<u8>, args: Seq<(usize, usize)>) -> bool {
    &&& args.len() <= MAX_ARGS_PER
    &&& forall|m: int| 0 <= m < args.len() ==> #[trigger] is_arg_range(s, args[m])
}

pub open spec fn seg_scan_wf(s: Seq<u8>, st: SegScan) -> bool {
    &&& s.len() <= usize::MAX
    &&& 0 <= st.pos <= s.len()
    &&& args_wf(s, st.args)
    &&& is_word_range(s, st.stdout_file)
    &&& is_word_range(s, st.stdin_file)
}

pub proof fn lemma_scan_segment(s: Seq<u8>, st: SegScan)
    requires
        seg_scan_wf(s, st),
    ensures
        seg_scan_wf(s, scan_segment(s, st)),
        st.pos <= scan_segment(s, st).pos,
        st.pos < s.len() && is_word_byte(s[st.pos]) && st.args.len() < MAX_ARGS_PER
            ==> st.pos < scan_segment(s, st).pos,
    decreases s.len() - st.pos,
{
    if 0 <= st.pos < s.len() && s[st.pos] != PIPE && st.args.len() < MAX_ARGS_PER {
        let j = scan_while(s, st.pos, ws_pred());
        lemma_scan_while(s, st.pos, ws_pred());
        if j >= s.len() || s[j] == PIPE {
        } else if s[j] == GT || s[j] == LT {
            let k = scan_while(s, j + 1, ws_pred());
            lemma_scan_while(s, j + 1, ws_pred());
            lemma_scan_while(s, k, word_pred());
            let e = scan_while(s, k, word_pred());
            let target = (k as usize, (e - k) as usize);
            assert(is_word_range(s, target)) by {
                assert forall|q: int| target.0 <= q < target.0 + target.1 implies is_word_byte(
                    #[trigger] s[q],
                ) by {
                    assert(word_pred()(s[q]));
                }
            }
            if s[j] == GT {
                lemma_scan_segment(
                    s,
                    SegScan { pos: e, args: st.args, stdout_file: target, stdin_file: st.stdin_file },
                );
            } else {
                lemma_scan_segment(
                    s,
                    SegScan { pos: e, args: st.args, stdout_file: st.stdout_file, stdin_file: target },
                );
            }
        } else {
            let e = scan_while(s, j, word_pred());
            lemma_scan_while(s, j, word_pred());
            assert(word_pred()(s[j]));
            let t = (j as usize, (e - j) as usize);
            assert(is_arg_range(s, t)) by {
                assert forall|q: int| t.0 <= q < t.0 + t.1 implies is_word_byte(#[trigger] s[q]) by {
                    assert(word_pred()(s[q]));
                }
            }
            let next = SegScan {
                pos: e,
                args: st.args.push(t),
                stdout_file: st.stdout_file,
                stdin_file: st.stdin_file,
            };
            assert forall|m: int| 0 <= m < next.args.len() implies #[trigger] is_arg_range(
                s,
                next.args[m],
            ) by {
                if m < st.args.len() {
                    assert(next.args[m] == st.args[m]);
                }
            }
            lemma_scan_segment(s, next);
        }
    }
}

/// Scanner state between segments.
pub struct PipeScan {
    pub pos: int,
    pub segments: Seq<Seq<(usize, usize)>>,
    pub stdout_file: (usize, usize),
    pub stdin_file: (usize, usize),
}

/// Reads segments from `st.pos` on: skips whitespace and `|` bytes, then
/// reads one segment, until the line ends or `MAX_SEGMENTS` segments are read.
pub open spec fn scan_pipeline(s: Seq<u8>, st: PipeScan) -> PipeScan
    decreases s.len() - st.pos,
{
    if 0 <= st.pos < s.len() && st.segments.len() < MAX_SEGMENTS {
        let j = scan_while(s, st.pos, sep_pred());
        proof {
            lemma_scan_while(s, st.pos, sep_pred());
        }
        if j >= s.len() {
            PipeScan {
                pos: j,
                segments: st.segments,
                stdout_file: st.stdout_file,
                stdin_file: st.stdin_file,
            }
        } else {
            let start = SegScan {
                pos: j,
                args: seq![],
                stdout_file: st.stdout_file,
                stdin_file: st.stdin_file,
            };
            let r = scan_segment(s, start);
            proof {
                assert(!sep_pred()(s[j]));
                lemma_scan_segment_advances(s, start);
            }
            scan_pipeline(
                s,
                PipeScan {
                    pos: r.pos,
                    segments: st.segments.push(r.args),
                    stdout_file: r.stdout_file,
                    stdin_file: r.stdin_file,
                },
            )
        }
    } else {
        st
    }
}

/// A segment scan that starts on a word byte moves forward.
pub proof fn lemma_scan_segment_advances(s: Seq<u8>, st: SegScan)
    requires
        0 <= st.pos < s.len(),
        is_word_byte(s[st.pos]),
        st.args.len() < MAX_ARGS_PER,
    ensures
        st.pos < scan_segment(s, st).pos,
        scan_segment(s, st).pos <= s.len(),
{
    lemma_scan_while(s, st.pos, ws_pred());
    lemma_scan_while(s, st.pos + 1, ws_pred());
    lemma_scan_while(s, st.pos, word_pred());
    assert(scan_while(s, st.pos, ws_pred()) == st.pos);
    let j = st.pos;
    if s[j] == GT || s[j] == LT {
        let k = scan_while(s, j + 1, ws_pred());
        lemma_scan_while(s, k, word_pred());
        let e = scan_while(s, k, word_pred());
        let target = (k as usize, (e - k) as usize);
        let next = if s[j] == GT {
            SegScan { pos: e, args: st.args, stdout_file: target, stdin_file: st.stdin_file }
        } else {
            SegScan { pos: e, args: st.args, stdout_file: st.stdout_file, stdin_file: target }
        };
        lemma_scan_segment_pos(s, next);
    } else {
        assert(word_pred()(s[j]));
        let e = scan_while(s, j, word_pred());
        let next = SegScan {
            pos: e,
            args: st.args.push((j as usize, (e - j) as usize)),
            stdout_file: st.stdout_file,
            stdin_file: st.stdin_file,
        };
        lemma_scan_segment_pos(s, next);
    }
}

/// A segment scan never moves backward, nor past the end of the line.
pub proof fn lemma_scan_segment_pos(s: Seq<u8>, st: SegScan)
    requires
        0 <= st.pos <= s.len(),
    ensures
        st.pos <= scan_segment(s, st).pos <= s.len(),
    decreases s.len() - st.pos,
{
    if 0 <= st.pos < s.len() && s[st.pos] != PIPE && st.args.len() < MAX_ARGS_PER {
        let j = scan_while(s, st.pos, ws_pred());
        lemma_scan_while(s, st.pos, ws_pred());
        if j >= s.len() || s[j] == PIPE {
        } else if s[j] == GT || s[j] == LT {
            let k = scan_while(s, j + 1, ws_pred());
            lemma_scan_while(s, j + 1, ws_pred());
            lemma_scan_while(s, k, word_pred());
            let e = scan_while(s, k, word_pred());
            let target = (k as usize, (e - k) as usize);
            if s[j] == GT {
                lemma_scan_segment_pos(
                    s,
                    SegScan { pos: e, args: st.args, stdout_file: target, stdin_file: st.stdin_file },
                );
            } else {
                lemma_scan_segment_pos(
                    s,
                    SegScan { pos: e, args: st.args, stdout_file: st.stdout_file, stdin_file: target },
                );
            }
        } else {
            let e = scan_while(s, j, word_pred());
            lemma_scan_while(s, j, word_pred());
            assert(word_pred()(s[j]));
            lemma_scan_segment_pos(
                s,
                SegScan {
                    pos: e,
                    args: st.args.push((j as usize, (e - j) as usize)),
                    stdout_file: st.stdout_file,
                    stdin_file: st.stdin_file,
                },
            );
        }
    }
}


pub open spec fn pipe_scan_wf(s: Seq<u8>, st: PipeScan) -> bool {
    &&& s.len() <= usize::MAX
    &&& 0 <= st.pos <= s.len()
    &&& st.segments.len() <= MAX_SEGMENTS
    &&& forall|k: int| 0 <= k < st.segments.len() ==> #[trigger] args_wf(s, st.segments[k])
    &&& is_word_range(s, st.stdout_file)
    &&& is_word_range(s, st.stdin_file)
}

pub proof fn lemma_scan_pipeline(s: Seq<u8>, st: PipeScan)
    requires
        pipe_scan_wf(s, st),
    ensures
        pipe_scan_wf(s, scan_pipeline(s, st)),
    decreases s.len() - st.pos,
{
    if 0 <= st.pos < s.len() && st.segments.len() < MAX_SEGMENTS {
        let j = scan_while(s, st.pos, sep_pred());
        lemma_scan_while(s, st.pos, sep_pred());
        if j < s.len() {
            let start = SegScan {
                pos: j,
                args: seq![],
                stdout_file: st.stdout_file,
                stdin_file: st.stdin_file,
            };
            assert(!sep_pred()(s[j]));
            lemma_scan_segment_advances(s, start);
            lemma_scan_segment(s, start);
            let r = scan_segment(s, start);
            let next = PipeScan {
                pos: r.pos,
                segments: st.segments.push(r.args),
                stdout_file: r.stdout_file,
                stdin_file: r.stdin_file,
            };
            assert forall|k: int| 0 <= k < next.segments.len() implies #[trigger] args_wf(
                s,
                next.segments[k],
            ) by {
                if k < st.segments.len() {
                    assert(next.segments[k] == st.segments[k]);
                }
            }
            lemma_scan_pipeline(s, next);
        }
    }
}

pub open spec fn initial_scan() -> PipeScan {
    PipeScan { pos: 0, segments: seq![], stdout_file: (0, 0), stdin_file: (0, 0) }
}

/// `segs` with the last argument of its last segment removed.
pub open spec fn drop_last_arg(segs: Seq<Seq<(usize, usize)>>) -> Seq<Seq<(usize, usize)>> {
    segs.update(segs.len() - 1, segs.last().drop_last())
}

/// Whether the last argument of the last segment is the single byte `&`.
pub open spec fn ends_in_ampersand(s: Seq<u8>, segs: Seq<Seq<(usize, usize)>>) -> bool {
    &&& segs.len() > 0
    &&& segs.last().len() > 0
    &&& segs.last().last().1 == 1
    &&& s[segs.last().last().0 as int] == AMP
}

/// What `parse` returns for the line `s`: the segments and redirections that
/// the scan reads, where a last argument `&` is taken off and turned into
/// the background flag.
pub open spec fn spec_parse(s: Seq<u8>) -> PipelineView {
    let r = scan_pipeline(s, initial_scan());
    if ends_in_ampersand(s, r.segments) {
        PipelineView {
            segments: drop_last_arg(r.segments),
            stdout_file: r.stdout_file,
            stdin_file: r.stdin_file,
            background: true,
        }
    } else {
        PipelineView {
            segments: r.segments,
            stdout_file: r.stdout_file,
            stdin_file: r.stdin_file,
            background: false,
        }
    }
}

/// Every range that the pipeline holds lies inside `s` and is made of word
/// bytes; every argument is nonempty; the counts stay within the limits.
pub open spec fn pipeline_wf(s: Seq<u8>, p: PipelineView) -> bool {
    &&& p.segments.len() <= MAX_SEGMENTS
    &&& forall|k: int| 0 <= k < p.segments.len() ==> #[trigger] args_wf(s, p.segments[k])
    &&& is_word_range(s, p.stdout_file)
    &&& is_word_range(s, p.stdin_file)
}

/// Every pipeline that `parse` returns is well formed for its line.
pub proof fn lemma_parse_wf(s: Seq<u8>)
    requires
        s.len() <= usize::MAX,
    ensures
        pipeline_wf(s, spec_parse(s)),
{
    lemma_scan_pipeline(s, initial_scan());
    let r = scan_pipeline(s, initial_scan());
    if ends_in_ampersand(s, r.segments) {
        let segs = drop_last_arg(r.segments);
        assert forall|k: int| 0 <= k < segs.len() implies #[trigger] args_wf(s, segs[k]) by {
            assert(args_wf(s, r.segments[k]));
            if k == segs.len() - 1 {
                let a = r.segments[k];
                assert forall|m: int| 0 <= m < segs[k].len() implies #[trigger] is_arg_range(
                    s,
                    segs[k][m],
                ) by {
                    assert(segs[k][m] == a[m]);
                }
            }
        }
    }
}

/// Split a command line into a pipeline.
#[verifier::loop_isolation(false)]
pub fn parse(line: &[u8]) -> (p: Pipeline)
    ensures
        p@ == spec_parse(line@),
        pipeline_wf(line@, p@),
        segments_ordered(p@.segments),
        forall|k: int| 0 <= k < p@.segments.len() ==> #[trigger] args_shape(line@, p@.segments[k]),
{
    let ghost s = line@;
    let mut segments: Vec<Segment> = Vec::new();
    let mut stdout_file: (usize, usize) = (0, 0);
    let mut stdin_file: (usize, usize) = (0, 0);
    let mut i: usize = 0;
    let len = line.len();
    proof {
        lemma_scan_pipeline(s, initial_scan());
        lemma_parse_wf(s);
        lemma_parse_ordered(s);
        lemma_parse_args_are_words(s);
        assert(segments_view(segments@) =~= seq![]);
    }
    while i < len && segments.len() < MAX_SEGMENTS
        invariant
            len == s.len(),
            i <= len,
            scan_pipeline(
                s,
                PipeScan {
                    pos: i as int,
                    segments: segments_view(segments@),
                    stdout_file,
                    stdin_file,
                },
            ) == scan_pipeline(s, initial_scan()),
        decreases len - i,
    {
        let ghost st = PipeScan {
            pos: i as int,
            segments: segments_view(segments@),
            stdout_file,
            stdin_file,
        };
        let ghost i0 = i;
        proof {
            lemma_scan_while(s, i as int, sep_pred());
        }
        while i < len && (is_whitespace(line[i]) || line[i] == PIPE)
            invariant
                i0 <= i <= len,
                scan_while(s, i as int, sep_pred()) == scan_while(s, i0 as int, sep_pred()),
            decreases len - i,
        {
            i += 1;
        }
        if i < len {
            let ghost j = i;
            let ghost start = SegScan { pos: j as int, args: seq![], stdout_file, stdin_file };
            let mut args: Vec<(usize, usize)> = Vec::new();
            proof {
                assert(!sep_pred()(s[j as int]));
                lemma_scan_segment_advances(s, start);
            }
            while i < len && line[i] != PIPE && args.len() < MAX_ARGS_PER
                invariant
                    j <= i <= len,
                    scan_segment(
                        s,
                        SegScan { pos: i as int, args: args@, stdout_file, stdin_file },
                    ) == scan_segment(s, start),
                decreases len - i,
            {
                let ghost i1 = i;
                proof {
                    lemma_scan_while(s, i as int, ws_pred());
                }
                while i < len && is_whitespace(line[i])
                    invariant
                        i1 <= i <= len,
                        scan_while(s, i as int, ws_pred()) == scan_while(s, i1 as int, ws_pred()),
                    decreases len - i,
                {
                    i += 1;
                }
                if i < len && line[i] != PIPE {
                    if line[i] == GT || line[i] == LT {
                        let op = line[i];
                        i += 1;
                        let ghost i2 = i;
                        proof {
                            lemma_scan_while(s, i as int, ws_pred());
                        }
                        while i < len && is_whitespace(line[i])
                            invariant
                                i2 <= i <= len,
                                scan_while(s, i as int, ws_pred()) == scan_while(
                                    s,
                                    i2 as int,
                                    ws_pred(),
                                ),
                            decreases len - i,
                        {
                            i += 1;
                        }
                        let start_w = i;
                        proof {
                            lemma_scan_while(s, i as int, word_pred());
                        }
                        while i < len && !is_whitespace(line[i]) && line[i] != PIPE
                            invariant
                                start_w <= i <= len,
                                scan_while(s, i as int, word_pred()) == scan_while(
                                    s,
                                    start_w as int,
                                    word_pred(),
                                ),
                            decreases len - i,
                        {
                            i += 1;
                        }
                        if op == GT {
                            stdout_file = (start_w, i - start_w);
                        } else {
                            stdin_file = (start_w, i - start_w);
                        }
                    } else {
                        let start_w = i;
                        proof {
                            lemma_scan_while(s, i as int, word_pred());
                        }
                        while i < len && !is_whitespace(line[i]) && line[i] != PIPE
                            invariant
                                start_w <= i <= len,
                                scan_while(s, i as int, word_pred()) == scan_while(
                                    s,
                                    start_w as int,
                                    word_pred(),
                                ),
                            decreases len - i,
                        {
                            i += 1;
                        }
                        args.push((start_w, i - start_w));
                    }
                }
            }
            let ghost r = scan_segment(s, start);
            segments.push(Segment { args });
            proof {
                assert(segments_view(segments@) =~= st.segments.push(r.args));
            }
        }
    }
    let mut background = false;
    let nseg = segments.len();
    if nseg > 0 {
        let nargs = segments[nseg - 1].args.len();
        if nargs > 0 {
            let (off, alen) = segments[nseg - 1].args[nargs - 1];
            let ghost segs = segments_view(segments@);
            assert(segs[nseg - 1] == segments@[nseg - 1].args@);
            assert(args_wf(s, segs[nseg - 1]));
            assert(is_arg_range(s, segs[nseg - 1][nargs - 1]));
            if alen == 1 && line[off] == AMP {
                let mut last = segments.pop().unwrap();
                last.args.pop();
                segments.push(last);
                background = true;
                proof {
                    assert(segments_view(segments@) =~= drop_last_arg(segs));
                }
            }
        }
    }
    Pipeline { segments, stdout_file, stdin_file, background }
}


/// Longest argument that `seg_to_args` hands on; longer ones are cut.
pub const ARG_BYTES_MAX: usize = 63;

pub open spec fn cut_len(len: usize) -> int {
    if len < ARG_BYTES_MAX { len as int } else { ARG_BYTES_MAX as int }
}

/// The bytes of `line` that argument `t` stands for, cut to `ARG_BYTES_MAX`.
pub open spec fn arg_bytes(line: Seq<u8>, t: (usize, usize)) -> Seq<u8> {
    line.subrange(t.0 as int, t.0 + cut_len(t.1))
}

/// `seg_to_args` can read every argument of `args` from `line`.
pub open spec fn args_fit(line: Seq<u8>, args: Seq<(usize, usize)>) -> bool {
    &&& args.len() <= MAX_ARGS_PER
    &&& forall|m: int| 0 <= m < args.len() ==> #[trigger] args[m].0 + cut_len(args[m].1) <= line.len()
}

/// The arguments of a segment as byte strings, each cut to `ARG_BYTES_MAX` bytes.
pub fn seg_to_args(line: &[u8], seg: &Segment) -> (r: Vec<Vec<u8>>)
    requires
        args_fit(line@, seg.args@),
    ensures
        r@.len() == seg.args@.len(),
        forall|m: int| 0 <= m < r@.len() ==> #[trigger] r@[m]@ == arg_bytes(line@, seg.args@[m]),
{
    let n_args = seg.args.len();
    let mut out: Vec<Vec<u8>> = Vec::new();
    for i in 0..n_args
        invariant
            n_args == seg.args@.len(),
            args_fit(line@, seg.args@),
            out@.len() == i,
            forall|m: int| 0 <= m < i ==> #[trigger] out@[m]@ == arg_bytes(line@, seg.args@[m]),
    {
        let (off, len) = seg.args[i];
        let n = if len < ARG_BYTES_MAX { len } else { ARG_BYTES_MAX };
        assert(seg.args@[i as int].0 + cut_len(seg.args@[i as int].1) <= line@.len());
        let mut item: Vec<u8> = Vec::new();
        for k in 0..n
            invariant
                off + n <= line.len(),
                item@ =~= line@.subrange(off as int, off + k),
        {
            item.push(line[off + k]);
        }
        out.push(item);
    }
    out
}

/// Every segment that `parse` returns can be handed to `seg_to_args`
/// together with the line it was parsed from.
pub proof fn lemma_parsed_segments_fit(s: Seq<u8>, k: int)
    requires
        s.len() <= usize::MAX,
        0 <= k < spec_parse(s).segments.len(),
    ensures
        args_fit(s, spec_parse(s).segments[k]),
{
    lemma_parse_wf(s);
    let a = spec_parse(s).segments[k];
    assert(args_wf(s, a));
    assert forall|m: int| 0 <= m < a.len() implies #[trigger] a[m].0 + cut_len(a[m].1) <= s.len() by {
        assert(is_arg_range(s, a[m]));
    }
}

/// A line made only of whitespace and `|` bytes holds no command.
pub proof fn lemma_blank_line_parses_empty(s: Seq<u8>)
    requires
        forall|k: int| 0 <= k < s.len() ==> #[trigger] sep_pred()(s[k]),
    ensures
        spec_parse(s).segments.len() == 0,
        !spec_parse(s).background,
{
    if s.len() > 0 {
        lemma_scan_while_all(s, 0, sep_pred());
    }
}

/// A scan over bytes that all satisfy `p` runs to the end.
pub proof fn lemma_scan_while_all(s: Seq<u8>, i: int, p: spec_fn(u8) -> bool)
    requires
        0 <= i <= s.len(),
        forall|k: int| i <= k < s.len() ==> #[trigger] p(s[k]),
    ensures
        scan_while(s, i, p) == s.len(),
    decreases s.len() - i,
{
    if i < s.len() {
        lemma_scan_while_all(s, i + 1, p);
    }
}


/// The arguments do not overlap and come in the order of the line.
pub open spec fn args_ordered(args: Seq<(usize, usize)>) -> bool {
    forall|m1: int, m2: int|
        0 <= m1 < m2 < args.len() ==> #[trigger] args[m1].0 + args[m1].1 <= #[trigger] args[m2].0
}

/// Every argument ends at or before `pos`.
pub open spec fn args_end_by(args: Seq<(usize, usize)>, pos: int) -> bool {
    forall|m: int| 0 <= m < args.len() ==> #[trigger] args[m].0 + args[m].1 <= pos
}

/// Every argument starts at or after `pos`.
pub open spec fn args_start_from(args: Seq<(usize, usize)>, pos: int) -> bool {
    forall|m: int| 0 <= m < args.len() ==> pos <= #[trigger] args[m].0
}

/// The arguments of all segments, read segment after segment, do not
/// overlap and come in the order of the line.
pub open spec fn segments_ordered(segs: Seq<Seq<(usize, usize)>>) -> bool {
    &&& forall|k: int| 0 <= k < segs.len() ==> #[trigger] args_ordered(segs[k])
    &&& forall|k1: int, k2: int, m1: int, m2: int|
        0 <= k1 < k2 < segs.len() && 0 <= m1 < segs[k1].len() && 0 <= m2 < segs[k2].len()
            ==> #[trigger] segs[k1][m1].0 + segs[k1][m1].1 <= #[trigger] segs[k2][m2].0
}

pub proof fn lemma_scan_segment_order(s: Seq<u8>, st: SegScan)
    requires
        seg_scan_wf(s, st),
        args_ordered(st.args),
        args_end_by(st.args, st.pos),
    ensures
        ({
            let r = scan_segment(s, st);
            &&& args_ordered(r.args)
            &&& args_end_by(r.args, r.pos)
            &&& st.args.len() <= r.args.len()
            &&& r.args.subrange(0, st.args.len() as int) == st.args
            &&& args_start_from(r.args.subrange(st.args.len() as int, r.args.len() as int), st.pos)
        }),
    decreases s.len() - st.pos,
{
    lemma_scan_segment(s, st);
    if 0 <= st.pos < s.len() && s[st.pos] != PIPE && st.args.len() < MAX_ARGS_PER {
        let j = scan_while(s, st.pos, ws_pred());
        lemma_scan_while(s, st.pos, ws_pred());
        if j >= s.len() || s[j] == PIPE {
            assert(st.args.subrange(0, st.args.len() as int) =~= st.args);
        } else if s[j] == GT || s[j] == LT {
            let k = scan_while(s, j + 1, ws_pred());
            lemma_scan_while(s, j + 1, ws_pred());
            lemma_scan_while(s, k, word_pred());
            let e = scan_while(s, k, word_pred());
            let target = (k as usize, (e - k) as usize);
            assert(is_word_range(s, target)) by {
                assert forall|q: int| target.0 <= q < target.0 + target.1 implies is_word_byte(
                    #[trigger] s[q],
                ) by {
                    assert(word_pred()(s[q]));
                }
            }
            let next = if s[j] == GT {
                SegScan { pos: e, args: st.args, stdout_file: target, stdin_file: st.stdin_file }
            } else {
                SegScan { pos: e, args: st.args, stdout_file: st.stdout_file, stdin_file: target }
            };
            lemma_scan_segment_order(s, next);
            let r = scan_segment(s, next);
            assert(args_start_from(r.args.subrange(st.args.len() as int, r.args.len() as int), st.pos)) by {
                let tail = r.args.subrange(st.args.len() as int, r.args.len() as int);
                assert forall|m: int| 0 <= m < tail.len() implies st.pos <= #[trigger] tail[m].0 by {
                    assert(tail[m] == r.args.subrange(next.args.len() as int, r.args.len() as int)[m]);
                }
            }
        } else {
            let e = scan_while(s, j, word_pred());
            lemma_scan_while(s, j, word_pred());
            assert(word_pred()(s[j]));
            let t = (j as usize, (e - j) as usize);
            assert(is_arg_range(s, t)) by {
                assert forall|q: int| t.0 <= q < t.0 + t.1 implies is_word_byte(#[trigger] s[q]) by {
                    assert(word_pred()(s[q]));
                }
            }
            let next = SegScan {
                pos: e,
                args: st.args.push(t),
                stdout_file: st.stdout_file,
                stdin_file: st.stdin_file,
            };
            assert forall|m: int| 0 <= m < next.args.len() implies #[trigger] is_arg_range(
                s,
                next.args[m],
            ) by {
                if m < st.args.len() {
                    assert(next.args[m] == st.args[m]);
                }
            }
            assert(args_ordered(next.args)) by {
                assert forall|m1: int, m2: int| 0 <= m1 < m2 < next.args.len() implies #[trigger] next.args[m1].0
                    + next.args[m1].1 <= #[trigger] next.args[m2].0 by {
                    assert(next.args[m1] == st.args[m1]);
                    if m2 < st.args.len() {
                        assert(next.args[m2] == st.args[m2]);
                    }
                }
            }
            assert(args_end_by(next.args, e)) by {
                assert forall|m: int| 0 <= m < next.args.len() implies #[trigger] next.args[m].0
                    + next.args[m].1 <= e by {
                    if m < st.args.len() {
                        assert(next.args[m] == st.args[m]);
                    }
                }
            }
            lemma_scan_segment_order(s, next);
            let r = scan_segment(s, next);
            assert(r.args.subrange(0, st.args.len() as int) =~= st.args) by {
                assert forall|m: int| 0 <= m < st.args.len() implies r.args[m] == st.args[m] by {
                    assert(r.args.subrange(0, next.args.len() as int)[m] == next.args[m]);
                }
            }
            assert(args_start_from(r.args.subrange(st.args.len() as int, r.args.len() as int), st.pos)) by {
                let tail = r.args.subrange(st.args.len() as int, r.args.len() as int);
                assert forall|m: int| 0 <= m < tail.len() implies st.pos <= #[trigger] tail[m].0 by {
                    if m == 0 {
                        assert(tail[0] == r.args[st.args.len() as int]);
                        assert(r.args.subrange(0, next.args.len() as int)[st.args.len() as int]
                            == next.args[st.args.len() as int]);
                    } else {
                        assert(tail[m] == r.args.subrange(next.args.len() as int, r.args.len() as int)[m - 1]);
                    }
                }
            }
        }
    } else {
        assert(st.args.subrange(0, st.args.len() as int) =~= st.args);
    }
}


/// Every argument of every segment ends at or before `pos`.
pub open spec fn segments_end_by(segs: Seq<Seq<(usize, usize)>>, pos: int) -> bool {
    forall|k: int| 0 <= k < segs.len() ==> #[trigger] args_end_by(segs[k], pos)
}

pub proof fn lemma_scan_pipeline_order(s: Seq<u8>, st: PipeScan)
    requires
        pipe_scan_wf(s, st),
        segments_ordered(st.segments),
        segments_end_by(st.segments, st.pos),
    ensures
        segments_ordered(scan_pipeline(s, st).segments),
    decreases s.len() - st.pos,
{
    if 0 <= st.pos < s.len() && st.segments.len() < MAX_SEGMENTS {
        let j = scan_while(s, st.pos, sep_pred());
        lemma_scan_while(s, st.pos, sep_pred());
        if j < s.len() {
            let start = SegScan {
                pos: j,
                args: seq![],
                stdout_file: st.stdout_file,
                stdin_file: st.stdin_file,
            };
            assert(!sep_pred()(s[j]));
            lemma_scan_segment_advances(s, start);
            lemma_scan_segment(s, start);
            lemma_scan_segment_order(s, start);
            let r = scan_segment(s, start);
            assert(r.args.subrange(0, r.args.len() as int) =~= r.args);
            let next = PipeScan {
                pos: r.pos,
                segments: st.segments.push(r.args),
                stdout_file: r.stdout_file,
                stdin_file: r.stdin_file,
            };
            let n = st.segments.len() as int;
            assert forall|k: int| 0 <= k < next.segments.len() implies #[trigger] args_wf(
                s,
                next.segments[k],
            ) by {
                if k < n {
                    assert(next.segments[k] == st.segments[k]);
                }
            }
            assert(segments_ordered(next.segments)) by {
                assert forall|k: int| 0 <= k < next.segments.len() implies #[trigger] args_ordered(
                    next.segments[k],
                ) by {
                    if k < n {
                        assert(next.segments[k] == st.segments[k]);
                    }
                }
                assert forall|k1: int, k2: int, m1: int, m2: int|
                    0 <= k1 < k2 < next.segments.len() && 0 <= m1 < next.segments[k1].len() && 0
                        <= m2 < next.segments[k2].len() implies #[trigger] next.segments[k1][m1].0
                    + next.segments[k1][m1].1 <= #[trigger] next.segments[k2][m2].0 by {
                    assert(next.segments[k1] == st.segments[k1]);
                    assert(args_end_by(st.segments[k1], st.pos));
                    if k2 < n {
                        assert(next.segments[k2] == st.segments[k2]);
                    } else {
                        assert(next.segments[k2] == r.args);
                        assert(r.args.subrange(0, r.args.len() as int)[m2] == r.args[m2]);
                    }
                }
            }
            assert(segments_end_by(next.segments, r.pos)) by {
                assert forall|k: int| 0 <= k < next.segments.len() implies #[trigger] args_end_by(
                    next.segments[k],
                    r.pos,
                ) by {
                    if k < n {
                        assert(next.segments[k] == st.segments[k]);
                        assert(args_end_by(st.segments[k], st.pos));
                    }
                }
            }
            lemma_scan_pipeline_order(s, next);
        }
    }
}

/// The arguments of the parsed pipeline, read segment after segment, do
/// not overlap and come in the order of the line.
pub proof fn lemma_parse_ordered(s: Seq<u8>)
    requires
        s.len() <= usize::MAX,
    ensures
        segments_ordered(spec_parse(s).segments),
{
    lemma_scan_pipeline_order(s, initial_scan());
    let r = scan_pipeline(s, initial_scan());
    if ends_in_ampersand(s, r.segments) {
        let segs = drop_last_arg(r.segments);
        let n = r.segments.len() - 1;
        assert forall|k: int| 0 <= k < segs.len() implies #[trigger] args_ordered(segs[k]) by {
            assert(args_ordered(r.segments[k]));
            if k == n {
                assert forall|m1: int, m2: int| 0 <= m1 < m2 < segs[k].len() implies #[trigger] segs[k][m1].0
                    + segs[k][m1].1 <= #[trigger] segs[k][m2].0 by {
                    assert(segs[k][m1] == r.segments[k][m1]);
                    assert(segs[k][m2] == r.segments[k][m2]);
                }
            }
        }
        assert forall|k1: int, k2: int, m1: int, m2: int|
            0 <= k1 < k2 < segs.len() && 0 <= m1 < segs[k1].len() && 0 <= m2 < segs[k2].len()
                implies #[trigger] segs[k1][m1].0 + segs[k1][m1].1 <= #[trigger] segs[k2][m2].0 by {
            assert(segs[k1][m1] == r.segments[k1][m1]);
            assert(segs[k2][m2] == r.segments[k2][m2]);
        }
    }
}


/// Whitespace or `|`: a byte that ends a word.
pub open spec fn is_sep_byte(b: u8) -> bool {
    spec_is_whitespace(b) || b == PIPE
}

/// A word may start at `p`: it is the start of the line or follows a separator.
pub open spec fn starts_word(s: Seq<u8>, p: int) -> bool {
    p == 0 || (0 < p <= s.len() && is_sep_byte(s[p - 1]))
}

/// A word may end at `p`: it is the end of the line or a separator follows.
pub open spec fn ends_word(s: Seq<u8>, p: int) -> bool {
    p == s.len() || (0 <= p < s.len() && is_sep_byte(s[p]))
}

/// `t` is a whole word of `s` (no word byte right before or right after
/// it) that does not start with `<` or `>`.
pub open spec fn is_maximal_word(s: Seq<u8>, t: (usize, usize)) -> bool {
    &&& starts_word(s, t.0 as int)
    &&& ends_word(s, t.0 + t.1)
    &&& t.0 < s.len()
    &&& s[t.0 as int] != GT
    &&& s[t.0 as int] != LT
}

/// No `|` in `s[a..b]`.
pub open spec fn no_pipe_between(s: Seq<u8>, a: int, b: int) -> bool {
    forall|q: int| a <= q < b ==> #[trigger] s[q] != PIPE
}

/// No `|` between argument `m` and argument `m + 1`.
pub open spec fn pipe_free_gap(s: Seq<u8>, args: Seq<(usize, usize)>, m: int) -> bool {
    no_pipe_between(s, args[m].0 + args[m].1, args[m + 1].0 as int)
}

/// Every argument is a whole word that starts with neither `<` nor `>`,
/// and no `|` stands between two arguments that follow each other.
pub open spec fn args_shape(s: Seq<u8>, args: Seq<(usize, usize)>) -> bool {
    &&& forall|m: int| 0 <= m < args.len() ==> #[trigger] is_maximal_word(s, args[m])
    &&& forall|m: int| 0 <= m < args.len() - 1 ==> #[trigger] pipe_free_gap(s, args, m)
}

/// The scan position sits where a word may start or may end.
pub open spec fn at_boundary(s: Seq<u8>, p: int) -> bool {
    starts_word(s, p) || ends_word(s, p)
}

pub open spec fn seg_shape_inv(s: Seq<u8>, st: SegScan) -> bool {
    &&& args_shape(s, st.args)
    &&& at_boundary(s, st.pos)
    &&& st.args.len() > 0 ==> {
        let last = st.args.last();
        &&& last.0 + last.1 <= st.pos
        &&& no_pipe_between(s, last.0 + last.1, st.pos)
    }
}

pub proof fn lemma_scan_segment_shape(s: Seq<u8>, st: SegScan)
    requires
        seg_scan_wf(s, st),
        seg_shape_inv(s, st),
    ensures
        args_shape(s, scan_segment(s, st).args),
        at_boundary(s, scan_segment(s, st).pos),
    decreases s.len() - st.pos,
{
    lemma_scan_segment(s, st);
    if 0 <= st.pos < s.len() && s[st.pos] != PIPE && st.args.len() < MAX_ARGS_PER {
        let j = scan_while(s, st.pos, ws_pred());
        lemma_scan_while(s, st.pos, ws_pred());
        if j >= s.len() || s[j] == PIPE {
        } else {
            assert(!ws_pred()(s[j]));
            // Bytes skipped before `j` are whitespace.
            assert forall|q: int| st.pos <= q < j implies #[trigger] s[q] != PIPE by {
                assert(ws_pred()(s[q]));
            }
            if s[j] == GT || s[j] == LT {
                let k = scan_while(s, j + 1, ws_pred());
                lemma_scan_while(s, j + 1, ws_pred());
                lemma_scan_while(s, k, word_pred());
                let e = scan_while(s, k, word_pred());
                let target = (k as usize, (e - k) as usize);
                assert(is_word_range(s, target)) by {
                    assert forall|q: int| target.0 <= q < target.0 + target.1 implies is_word_byte(
                        #[trigger] s[q],
                    ) by {
                        assert(word_pred()(s[q]));
                    }
                }
                let next = if s[j] == GT {
                    SegScan { pos: e, args: st.args, stdout_file: target, stdin_file: st.stdin_file }
                } else {
                    SegScan { pos: e, args: st.args, stdout_file: st.stdout_file, stdin_file: target }
                };
                assert(ends_word(s, e)) by {
                    if e < s.len() {
                        assert(!word_pred()(s[e]));
                    }
                }
                if st.args.len() > 0 {
                    let last = st.args.last();
                    assert forall|q: int| last.0 + last.1 <= q < e implies #[trigger] s[q] != PIPE by {
                        if q < st.pos {
                        } else if q < j {
                        } else if q == j {
                        } else if q < k {
                            assert(ws_pred()(s[q]));
                        } else {
                            assert(word_pred()(s[q]));
                        }
                    }
                }
                lemma_scan_segment_shape(s, next);
            } else {
                let e = scan_while(s, j, word_pred());
                lemma_scan_while(s, j, word_pred());
                assert(word_pred()(s[j]));
                let t = (j as usize, (e - j) as usize);
                assert(is_arg_range(s, t)) by {
                    assert forall|q: int| t.0 <= q < t.0 + t.1 implies is_word_byte(#[trigger] s[q]) by {
                        assert(word_pred()(s[q]));
                    }
                }
                let next = SegScan {
                    pos: e,
                    args: st.args.push(t),
                    stdout_file: st.stdout_file,
                    stdin_file: st.stdin_file,
                };
                assert forall|m: int| 0 <= m < next.args.len() implies #[trigger] is_arg_range(
                    s,
                    next.args[m],
                ) by {
                    if m < st.args.len() {
                        assert(next.args[m] == st.args[m]);
                    }
                }
                assert(starts_word(s, j)) by {
                    if j > st.pos {
                        assert(ws_pred()(s[j - 1]));
                    }
                }
                assert(ends_word(s, e)) by {
                    if e < s.len() {
                        assert(!word_pred()(s[e]));
                    }
                }
                assert(is_maximal_word(s, t));
                let n = st.args.len() as int;
                assert forall|m: int| 0 <= m < next.args.len() implies #[trigger] is_maximal_word(
                    s,
                    next.args[m],
                ) by {
                    if m < n {
                        assert(next.args[m] == st.args[m]);
                    }
                }
                assert forall|m: int| 0 <= m < next.args.len() - 1 implies #[trigger] pipe_free_gap(
                    s,
                    next.args,
                    m,
                ) by {
                    assert(next.args[m] == st.args[m]);
                    if m < n - 1 {
                        assert(next.args[m + 1] == st.args[m + 1]);
                        assert(pipe_free_gap(s, st.args, m));
                    } else {
                        assert(next.args[m + 1] == t);
                        assert(st.args[m] == st.args.last());
                    }
                }
                assert(next.args.last() == t);
                lemma_scan_segment_shape(s, next);
            }
        }
    }
}

pub open spec fn pipe_shape_inv(s: Seq<u8>, st: PipeScan) -> bool {
    &&& forall|k: int| 0 <= k < st.segments.len() ==> #[trigger] args_shape(s, st.segments[k])
    &&& at_boundary(s, st.pos)
}

pub proof fn lemma_scan_pipeline_shape(s: Seq<u8>, st: PipeScan)
    requires
        pipe_scan_wf(s, st),
        pipe_shape_inv(s, st),
    ensures
        forall|k: int|
            0 <= k < scan_pipeline(s, st).segments.len() ==> #[trigger] args_shape(
                s,
                scan_pipeline(s, st).segments[k],
            ),
    decreases s.len() - st.pos,
{
    if 0 <= st.pos < s.len() && st.segments.len() < MAX_SEGMENTS {
        let j = scan_while(s, st.pos, sep_pred());
        lemma_scan_while(s, st.pos, sep_pred());
        if j < s.len() {
            let start = SegScan {
                pos: j,
                args: seq![],
                stdout_file: st.stdout_file,
                stdin_file: st.stdin_file,
            };
            assert(!sep_pred()(s[j]));
            assert(starts_word(s, j)) by {
                if j > st.pos {
                    assert(sep_pred()(s[j - 1]));
                }
            }
            lemma_scan_segment_advances(s, start);
            lemma_scan_segment(s, start);
            lemma_scan_segment_shape(s, start);
            let r = scan_segment(s, start);
            let next = PipeScan {
                pos: r.pos,
                segments: st.segments.push(r.args),
                stdout_file: r.stdout_file,
                stdin_file: r.stdin_file,
            };
            assert forall|k: int| 0 <= k < next.segments.len() implies #[trigger] args_wf(
                s,
                next.segments[k],
            ) by {
                if k < st.segments.len() {
                    assert(next.segments[k] == st.segments[k]);
                }
            }
            assert forall|k: int| 0 <= k < next.segments.len() implies #[trigger] args_shape(
                s,
                next.segments[k],
            ) by {
                if k < st.segments.len() {
                    assert(next.segments[k] == st.segments[k]);
                }
            }
            lemma_scan_pipeline_shape(s, next);
            assert(scan_pipeline(s, st) == scan_pipeline(s, next));
        } else {
            assert(scan_pipeline(s, st).segments == st.segments);
        }
    } else {
        assert(scan_pipeline(s, st) == st);
    }
}

/// Every argument that `parse` returns is a whole word of the line, not
/// starting with `<` or `>`; two arguments that follow each other in one
/// segment have no `|` between them; and every argument ends strictly before
/// the next one starts, within a segment and from one segment to the next.
pub proof fn lemma_parse_args_are_words(s: Seq<u8>)
    requires
        s.len() <= usize::MAX,
    ensures
        ({
            let segs = spec_parse(s).segments;
            &&& forall|k: int| 0 <= k < segs.len() ==> #[trigger] args_shape(s, segs[k])
            &&& forall|k: int, m1: int, m2: int|
                0 <= k < segs.len() && 0 <= m1 < m2 < segs[k].len() ==> #[trigger] segs[k][m1].0
                    + segs[k][m1].1 < #[trigger] segs[k][m2].0
            &&& forall|k1: int, k2: int, m1: int, m2: int|
                0 <= k1 < k2 < segs.len() && 0 <= m1 < segs[k1].len() && 0 <= m2 < segs[k2].len()
                    ==> #[trigger] segs[k1][m1].0 + segs[k1][m1].1 < #[trigger] segs[k2][m2].0
        }),
{
    lemma_scan_pipeline(s, initial_scan());
    lemma_scan_pipeline_shape(s, initial_scan());
    lemma_parse_wf(s);
    lemma_parse_ordered(s);
    let r = scan_pipeline(s, initial_scan());
    let segs = spec_parse(s).segments;
    if ends_in_ampersand(s, r.segments) {
        let n = r.segments.len() - 1;
        assert forall|k: int| 0 <= k < segs.len() implies #[trigger] args_shape(s, segs[k]) by {
            assert(args_shape(s, r.segments[k]));
            if k == n {
                let a = r.segments[k];
                assert forall|m: int| 0 <= m < segs[k].len() implies #[trigger] is_maximal_word(
                    s,
                    segs[k][m],
                ) by {
                    assert(segs[k][m] == a[m]);
                }
                assert forall|m: int| 0 <= m < segs[k].len() - 1 implies #[trigger] pipe_free_gap(
                    s,
                    segs[k],
                    m,
                ) by {
                    assert(segs[k][m] == a[m]);
                    assert(segs[k][m + 1] == a[m + 1]);
                    assert(pipe_free_gap(s, a, m));
                }
            }
        }
    }
    // A word's end is a separator or the end of the line, while the next
    // word starts on a word byte: the two positions differ.
    assert forall|k: int, m1: int, m2: int|
        0 <= k < segs.len() && 0 <= m1 < m2 < segs[k].len() implies #[trigger] segs[k][m1].0
        + segs[k][m1].1 < #[trigger] segs[k][m2].0 by {
        assert(args_ordered(segs[k]));
        assert(args_shape(s, segs[k]));
        assert(is_maximal_word(s, segs[k][m1]));
        assert(args_wf(s, segs[k]));
        assert(is_arg_range(s, segs[k][m2]));
        let st = segs[k][m2].0 as int;
        assert(is_word_byte(s[st]));
    }
    assert forall|k1: int, k2: int, m1: int, m2: int|
        0 <= k1 < k2 < segs.len() && 0 <= m1 < segs[k1].len() && 0 <= m2 < segs[k2].len()
            implies #[trigger] segs[k1][m1].0 + segs[k1][m1].1 < #[trigger] segs[k2][m2].0 by {
        assert(args_shape(s, segs[k1]));
        assert(is_maximal_word(s, segs[k1][m1]));
        assert(args_wf(s, segs[k2]));
        assert(is_arg_range(s, segs[k2][m2]));
        let st = segs[k2][m2].0 as int;
        assert(is_word_byte(s[st]));
    }
}


/// `s` followed by a space and `&`.
pub open spec fn append_amp(s: Seq<u8>) -> Seq<u8> {
    s + seq![0x20u8, AMP]
}

/// The last byte of `s` that is not whitespace stands at `q` and is
/// neither `|`, `<` nor `>`.
pub open spec fn last_word_byte_at(s: Seq<u8>, q: int) -> bool {
    &&& 0 <= q < s.len()
    &&& is_word_byte(s[q])
    &&& s[q] != GT
    &&& s[q] != LT
    &&& forall|q2: int| q < q2 < s.len() ==> spec_is_whitespace(#[trigger] s[q2])
}

/// Scanning `s + t` from inside `s` stops where scanning `s` does, unless
/// that scan runs to the end of `s`.
pub proof fn lemma_scan_while_extend(s: Seq<u8>, t: Seq<u8>, i: int, p: spec_fn(u8) -> bool)
    requires
        0 <= i <= s.len(),
    ensures
        scan_while(s + t, i, p) == if scan_while(s, i, p) < s.len() {
            scan_while(s, i, p)
        } else {
            scan_while(s + t, s.len() as int, p)
        },
    decreases s.len() - i,
{
    if i < s.len() {
        assert((s + t)[i] == s[i]);
        if p(s[i]) {
            lemma_scan_while_extend(s, t, i + 1, p);
        }
    }
}

/// The scans that meet the end of `s` continue over ` &` as follows.
proof fn lemma_amp_scans(s: Seq<u8>)
    ensures
        scan_while(append_amp(s), s.len() as int, ws_pred()) == s.len() + 1,
        scan_while(append_amp(s), s.len() as int, word_pred()) == s.len(),
        scan_while(append_amp(s), s.len() + 1 as int, word_pred()) == s.len() + 2,
        append_amp(s)[s.len() as int] == 0x20u8,
        append_amp(s)[s.len() + 1 as int] == AMP,
        append_amp(s).len() == s.len() + 2,
{
    let s2 = append_amp(s);
    let l = s.len() as int;
    assert(s2[l] == 0x20u8);
    assert(s2[l + 1] == AMP);
    assert(ws_pred()(s2[l]));
    assert(!ws_pred()(s2[l + 1]));
    assert(scan_while(s2, l + 1, ws_pred()) == l + 1);
    assert(!word_pred()(s2[l]));
    assert(word_pred()(s2[l + 1]));
    assert(scan_while(s2, l + 2, word_pred()) == l + 2);
}

/// A segment scan over `s` and over `s + " &"` agree while they stay
/// inside `s`; one that reaches the end of `s` with room for an argument
/// takes `&` as one more argument on the longer line.
proof fn lemma_segment_append_amp(s: Seq<u8>, q: int, st: SegScan)
    requires
        s.len() + 2 <= usize::MAX,
        last_word_byte_at(s, q),
        0 <= st.pos <= s.len(),
    ensures
        ({
            let r = scan_segment(s, st);
            let s2 = append_amp(s);
            &&& r.pos <= s.len()
            &&& r.pos < s.len() ==> scan_segment(s2, st) == r
            &&& r.pos < s.len() && r.args.len() < MAX_ARGS_PER ==> s[r.pos] == PIPE
            &&& r.pos == s.len() && r.args.len() < MAX_ARGS_PER ==> scan_segment(s2, st) == SegScan {
                pos: s.len() + 2 as int,
                args: r.args.push(((s.len() + 1) as usize, 1usize)),
                stdout_file: r.stdout_file,
                stdin_file: r.stdin_file,
            }
        }),
    decreases s.len() - st.pos,
{
    let s2 = append_amp(s);
    let l = s.len() as int;
    let tail = seq![0x20u8, AMP];
    lemma_amp_scans(s);
    lemma_scan_segment_pos(s, st);
    let amp = SegScan {
        pos: l + 2,
        args: st.args.push(((l + 1) as usize, 1usize)),
        stdout_file: st.stdout_file,
        stdin_file: st.stdin_file,
    };
    if st.pos == l {
        if st.args.len() < MAX_ARGS_PER {
            assert(scan_segment(s2, amp) == amp);
            assert(scan_segment(s2, st) == scan_segment(s2, amp));
        }
    } else {
        assert(s2[st.pos] == s[st.pos]);
        if s[st.pos] != PIPE && st.args.len() < MAX_ARGS_PER {
            let j = scan_while(s, st.pos, ws_pred());
            lemma_scan_while(s, st.pos, ws_pred());
            lemma_scan_while_extend(s, tail, st.pos, ws_pred());
            if j >= l {
                assert(scan_segment(s2, amp) == amp);
                assert(scan_segment(s2, st) == scan_segment(s2, amp));
            } else {
                assert(s2[j] == s[j]);
                if s[j] == PIPE {
                } else if s[j] == GT || s[j] == LT {
                    // The redirection is followed by a word byte, the last one of `s` at the latest.
                    assert(!ws_pred()(s[j]));
                    assert(j < q) by {
                        if j > q {
                            assert(spec_is_whitespace(s[j]));
                        }
                    }
                    let k = scan_while(s, j + 1, ws_pred());
                    lemma_scan_while(s, j + 1, ws_pred());
                    lemma_scan_while_extend(s, tail, j + 1, ws_pred());
                    assert(k <= q) by {
                        if k > q {
                            assert(ws_pred()(s[q]));
                        }
                    }
                    let e = scan_while(s, k, word_pred());
                    lemma_scan_while(s, k, word_pred());
                    lemma_scan_while_extend(s, tail, k, word_pred());
                    let target = (k as usize, (e - k) as usize);
                    let next = if s[j] == GT {
                        SegScan { pos: e, args: st.args, stdout_file: target, stdin_file: st.stdin_file }
                    } else {
                        SegScan { pos: e, args: st.args, stdout_file: st.stdout_file, stdin_file: target }
                    };
                    lemma_segment_append_amp(s, q, next);
                    assert(scan_segment(s, st) == scan_segment(s, next));
                    assert(scan_segment(s2, st) == scan_segment(s2, next));
                } else {
                    assert(word_pred()(s[j]));
                    let e = scan_while(s, j, word_pred());
                    lemma_scan_while(s, j, word_pred());
                    lemma_scan_while_extend(s, tail, j, word_pred());
                    let next = SegScan {
                        pos: e,
                        args: st.args.push((j as usize, (e - j) as usize)),
                        stdout_file: st.stdout_file,
                        stdin_file: st.stdin_file,
                    };
                    lemma_segment_append_amp(s, q, next);
                    assert(scan_segment(s, st) == scan_segment(s, next));
                    assert(scan_segment(s2, st) == scan_segment(s2, next));
                }
            }
        }
    }
}

/// A pipeline scan only adds segments after those it starts with.
proof fn lemma_scan_pipeline_prefix(s: Seq<u8>, st: PipeScan)
    requires
        0 <= st.pos <= s.len(),
    ensures
        st.segments.len() <= scan_pipeline(s, st).segments.len(),
        forall|k: int|
            0 <= k < st.segments.len() ==> #[trigger] scan_pipeline(s, st).segments[k] == st.segments[k],
    decreases s.len() - st.pos,
{
    if 0 <= st.pos < s.len() && st.segments.len() < MAX_SEGMENTS {
        let j = scan_while(s, st.pos, sep_pred());
        lemma_scan_while(s, st.pos, sep_pred());
        if j < s.len() {
            let start = SegScan {
                pos: j,
                args: seq![],
                stdout_file: st.stdout_file,
                stdin_file: st.stdin_file,
            };
            assert(!sep_pred()(s[j]));
            lemma_scan_segment_advances(s, start);
            let r = scan_segment(s, start);
            let next = PipeScan {
                pos: r.pos,
                segments: st.segments.push(r.args),
                stdout_file: r.stdout_file,
                stdin_file: r.stdin_file,
            };
            lemma_scan_pipeline_prefix(s, next);
            assert(scan_pipeline(s, st) == scan_pipeline(s, next));
            assert forall|k: int| 0 <= k < st.segments.len() implies #[trigger] scan_pipeline(
                s,
                st,
            ).segments[k] == st.segments[k] by {
                assert(next.segments[k] == st.segments[k]);
            }
        }
    }
}

/// `segs` with `&` at `pos` added to its last segment.
pub open spec fn with_amp_arg(segs: Seq<Seq<(usize, usize)>>, pos: int) -> Seq<Seq<(usize, usize)>> {
    segs.update(segs.len() - 1, segs.last().push((pos as usize, 1usize)))
}

proof fn lemma_pipeline_append_amp(s: Seq<u8>, q: int, st: PipeScan)
    requires
        s.len() + 2 <= usize::MAX,
        last_word_byte_at(s, q),
        0 <= st.pos <= q,
        scan_pipeline(s, st).segments.len() < MAX_SEGMENTS,
        forall|k: int|
            0 <= k < scan_pipeline(s, st).segments.len() ==> #[trigger] scan_pipeline(
                s,
                st,
            ).segments[k].len() < MAX_ARGS_PER,
    ensures
        ({
            let r = scan_pipeline(s, st);
            &&& r.segments.len() > 0
            &&& scan_pipeline(append_amp(s), st) == PipeScan {
                pos: s.len() + 2 as int,
                segments: with_amp_arg(r.segments, s.len() + 1 as int),
                stdout_file: r.stdout_file,
                stdin_file: r.stdin_file,
            }
        }),
    decreases s.len() - st.pos,
{
    let s2 = append_amp(s);
    let l = s.len() as int;
    let tail = seq![0x20u8, AMP];
    lemma_amp_scans(s);
    lemma_scan_pipeline_prefix(s, st);
    if st.segments.len() >= MAX_SEGMENTS {
        assert(scan_pipeline(s, st) == st);
    }
    let j = scan_while(s, st.pos, sep_pred());
    lemma_scan_while(s, st.pos, sep_pred());
    lemma_scan_while_extend(s, tail, st.pos, sep_pred());
    assert(j <= q) by {
        if j > q {
            assert(sep_pred()(s[q]));
        }
    }
    assert(s2[j] == s[j]);
    let start = SegScan { pos: j, args: seq![], stdout_file: st.stdout_file, stdin_file: st.stdin_file };
    lemma_segment_append_amp(s, q, start);
    assert(!sep_pred()(s[j]));
    lemma_scan_segment_advances(s, start);
    let seg = scan_segment(s, start);
    let next = PipeScan {
        pos: seg.pos,
        segments: st.segments.push(seg.args),
        stdout_file: seg.stdout_file,
        stdin_file: seg.stdin_file,
    };
    assert(scan_pipeline(s, st) == scan_pipeline(s, next));
    let n = st.segments.len() as int;
    lemma_scan_pipeline_prefix(s, next);
    let r = scan_pipeline(s, next);
    assert(r.segments[n] == seg.args);
    assert(seg.args.len() < MAX_ARGS_PER);
    if seg.pos < l {
        assert(s[seg.pos] == PIPE);
        assert(seg.pos < q) by {
            if seg.pos > q {
                assert(spec_is_whitespace(s[seg.pos]));
            }
        }
        assert(scan_segment(s2, start) == seg);
        assert(scan_pipeline(s2, st) == scan_pipeline(s2, next));
        lemma_pipeline_append_amp(s, q, next);
    } else {
        let seg2 = SegScan {
            pos: l + 2,
            args: seg.args.push(((l + 1) as usize, 1usize)),
            stdout_file: seg.stdout_file,
            stdin_file: seg.stdin_file,
        };
        assert(scan_segment(s2, start) == seg2);
        let next2 = PipeScan {
            pos: l + 2,
            segments: st.segments.push(seg2.args),
            stdout_file: seg.stdout_file,
            stdin_file: seg.stdin_file,
        };
        assert(scan_pipeline(s2, st) == scan_pipeline(s2, next2));
        assert(scan_pipeline(s2, next2) == next2);
        assert(r == next);
        assert(next2.segments =~= with_amp_arg(r.segments, l + 1));
    }
}

/// Appending ` &` to a line whose last non-blank byte is a word byte other
/// than `<` or `>` keeps its segments and redirections and sets the
/// background flag, whenever the line was not in the background already
/// and neither the segments nor any segment's arguments had reached their
/// limit.
pub proof fn lemma_parse_append_ampersand(s: Seq<u8>, q: int)
    requires
        s.len() + 2 <= usize::MAX,
        last_word_byte_at(s, q),
        !spec_parse(s).background,
        spec_parse(s).segments.len() < MAX_SEGMENTS,
        forall|k: int|
            0 <= k < spec_parse(s).segments.len() ==> #[trigger] spec_parse(s).segments[k].len()
                < MAX_ARGS_PER,
    ensures
        spec_parse(append_amp(s)).background,
        spec_parse(append_amp(s)).segments == spec_parse(s).segments,
        spec_parse(append_amp(s)).stdout_file == spec_parse(s).stdout_file,
        spec_parse(append_amp(s)).stdin_file == spec_parse(s).stdin_file,
{
    let s2 = append_amp(s);
    let l = s.len() as int;
    let r = scan_pipeline(s, initial_scan());
    assert(r.segments == spec_parse(s).segments);
    lemma_pipeline_append_amp(s, q, initial_scan());
    lemma_amp_scans(s);
    let r2 = scan_pipeline(s2, initial_scan());
    assert(r2.segments.last() == r.segments.last().push(((l + 1) as usize, 1usize)));
    assert(ends_in_ampersand(s2, r2.segments));
    assert(r2.segments.last().drop_last() =~= r.segments.last());
    assert(drop_last_arg(r2.segments) =~= r.segments);
}


/// The bytes that the parser treats specially are `|` (0x7C), `>` (0x3E),
/// `<` (0x3C) and `&` (0x26); a word byte is any byte other than space,
/// tab, line feed, carriage return and `|`.
pub proof fn lemma_special_bytes(b: u8)
    ensures
        PIPE == 0x7C && GT == 0x3E && LT == 0x3C && AMP == 0x26,
        is_word_byte(b) <==> !(b == 0x20 || b == 0x09 || b == 0x0A || b == 0x0D || b == 0x7C),
{
}


/// Where the target of a redirection operator at `j` ends: past the blanks
/// after the operator and the word that follows them.
pub open spec fn redirection_end(s: Seq<u8>, j: int) -> int {
    scan_while(s, scan_while(s, j + 1, ws_pred()), word_pred())
}

/// Position `q` belongs to a redirection: a `<` or `>` at the start of a
/// word, the blanks after it, or the word that follows them.
pub open spec fn in_redirection(s: Seq<u8>, q: int) -> bool {
    exists|j: int|
        0 <= j <= q && j < s.len() && (s[j] == GT || s[j] == LT) && starts_word(s, j)
            && q < #[trigger] redirection_end(s, j)
}

/// Argument `t` spans position `q`.
pub open spec fn arg_covers(t: (usize, usize), q: int) -> bool {
    t.0 <= q < t.0 + t.1
}

pub open spec fn covered_by_args(args: Seq<(usize, usize)>, q: int) -> bool {
    exists|m: int| 0 <= m < args.len() && #[trigger] arg_covers(args[m], q)
}

pub open spec fn covered_by_segments(segs: Seq<Seq<(usize, usize)>>, q: int) -> bool {
    exists|k: int, m: int| 0 <= k < segs.len() && 0 <= m < segs[k].len() && #[trigger] arg_covers(segs[k][m], q)
}

/// Every word byte of `s[lo..hi]` lies in one of `args` or in a redirection.
pub open spec fn args_cover(s: Seq<u8>, args: Seq<(usize, usize)>, lo: int, hi: int) -> bool {
    forall|q: int| lo <= q < hi && #[trigger] is_word_byte(s[q]) ==> covered_by_args(args, q) || in_redirection(s, q)
}

/// Every word byte of `s[..hi]` lies in an argument of `segs` or in a redirection.
pub open spec fn segments_cover(s: Seq<u8>, segs: Seq<Seq<(usize, usize)>>, hi: int) -> bool {
    forall|q: int| 0 <= q < hi && #[trigger] is_word_byte(s[q]) ==> covered_by_segments(segs, q) || in_redirection(s, q)
}

proof fn lemma_scan_segment_complete(s: Seq<u8>, st: SegScan, lo: int)
    requires
        s.len() <= usize::MAX,
        0 <= lo <= st.pos <= s.len(),
        at_boundary(s, st.pos),
        args_cover(s, st.args, lo, st.pos),
    ensures
        args_cover(s, scan_segment(s, st).args, lo, scan_segment(s, st).pos),
        at_boundary(s, scan_segment(s, st).pos),
    decreases s.len() - st.pos,
{
    if 0 <= st.pos < s.len() && s[st.pos] != PIPE && st.args.len() < MAX_ARGS_PER {
        let j = scan_while(s, st.pos, ws_pred());
        lemma_scan_while(s, st.pos, ws_pred());
        assert forall|q: int| st.pos <= q < j implies !is_word_byte(#[trigger] s[q]) by {
            assert(ws_pred()(s[q]));
        }
        if j >= s.len() || s[j] == PIPE {
            assert(args_cover(s, st.args, lo, j)) by {
                assert forall|q: int| lo <= q < j && #[trigger] is_word_byte(s[q]) implies covered_by_args(
                    st.args,
                    q,
                ) || in_redirection(s, q) by {
                    if q >= st.pos {
                        assert(!is_word_byte(s[q]));
                    }
                }
            }
        } else {
            assert(!ws_pred()(s[j]));
            assert(starts_word(s, j)) by {
                if j > st.pos {
                    assert(ws_pred()(s[j - 1]));
                }
            }
            if s[j] == GT || s[j] == LT {
                let k = scan_while(s, j + 1, ws_pred());
                lemma_scan_while(s, j + 1, ws_pred());
                lemma_scan_while(s, k, word_pred());
                let e = scan_while(s, k, word_pred());
                assert(redirection_end(s, j) == e);
                let target = (k as usize, (e - k) as usize);
                let next = if s[j] == GT {
                    SegScan { pos: e, args: st.args, stdout_file: target, stdin_file: st.stdin_file }
                } else {
                    SegScan { pos: e, args: st.args, stdout_file: st.stdout_file, stdin_file: target }
                };
                assert(ends_word(s, e)) by {
                    if e < s.len() {
                        assert(!word_pred()(s[e]));
                    }
                }
                assert(args_cover(s, next.args, lo, e)) by {
                    assert forall|q: int| lo <= q < e && #[trigger] is_word_byte(s[q]) implies covered_by_args(
                        next.args,
                        q,
                    ) || in_redirection(s, q) by {
                        if q < st.pos {
                        } else if q < j {
                            assert(!is_word_byte(s[q]));
                        } else {
                            assert(q < redirection_end(s, j));
                        }
                    }
                }
                lemma_scan_segment_complete(s, next, lo);
            } else {
                let e = scan_while(s, j, word_pred());
                lemma_scan_while(s, j, word_pred());
                assert(word_pred()(s[j]));
                let t = (j as usize, (e - j) as usize);
                let next = SegScan {
                    pos: e,
                    args: st.args.push(t),
                    stdout_file: st.stdout_file,
                    stdin_file: st.stdin_file,
                };
                assert(ends_word(s, e)) by {
                    if e < s.len() {
                        assert(!word_pred()(s[e]));
                    }
                }
                assert(args_cover(s, next.args, lo, e)) by {
                    assert forall|q: int| lo <= q < e && #[trigger] is_word_byte(s[q]) implies covered_by_args(
                        next.args,
                        q,
                    ) || in_redirection(s, q) by {
                        if q < st.pos {
                            if covered_by_args(st.args, q) {
                                let m = choose|m: int| 0 <= m < st.args.len() && #[trigger] arg_covers(st.args[m], q);
                                assert(next.args[m] == st.args[m]);
                                assert(arg_covers(next.args[m], q));
                            }
                        } else if q < j {
                            assert(!is_word_byte(s[q]));
                        } else {
                            let m = st.args.len() as int;
                            assert(next.args[m] == t);
                            assert(arg_covers(next.args[m], q));
                        }
                    }
                }
                lemma_scan_segment_complete(s, next, lo);
            }
        }
    }
}

proof fn lemma_scan_pipeline_complete(s: Seq<u8>, st: PipeScan)
    requires
        s.len() <= usize::MAX,
        0 <= st.pos <= s.len(),
        at_boundary(s, st.pos),
        segments_cover(s, st.segments, st.pos),
    ensures
        segments_cover(s, scan_pipeline(s, st).segments, scan_pipeline(s, st).pos),
        scan_pipeline(s, st).pos == s.len() || scan_pipeline(s, st).segments.len() >= MAX_SEGMENTS,
    decreases s.len() - st.pos,
{
    if 0 <= st.pos < s.len() && st.segments.len() < MAX_SEGMENTS {
        let j = scan_while(s, st.pos, sep_pred());
        lemma_scan_while(s, st.pos, sep_pred());
        assert forall|q: int| st.pos <= q < j implies !is_word_byte(#[trigger] s[q]) by {
            assert(sep_pred()(s[q]));
        }
        if j >= s.len() {
            assert(segments_cover(s, st.segments, j)) by {
                assert forall|q: int| 0 <= q < j && #[trigger] is_word_byte(s[q]) implies covered_by_segments(
                    st.segments,
                    q,
                ) || in_redirection(s, q) by {
                    if q >= st.pos {
                        assert(!is_word_byte(s[q]));
                    }
                }
            }
        } else {
            let start = SegScan {
                pos: j,
                args: seq![],
                stdout_file: st.stdout_file,
                stdin_file: st.stdin_file,
            };
            assert(!sep_pred()(s[j]));
            assert(starts_word(s, j)) by {
                if j > st.pos {
                    assert(sep_pred()(s[j - 1]));
                }
            }
            lemma_scan_segment_advances(s, start);
            lemma_scan_segment_complete(s, start, j);
            let r = scan_segment(s, start);
            let next = PipeScan {
                pos: r.pos,
                segments: st.segments.push(r.args),
                stdout_file: r.stdout_file,
                stdin_file: r.stdin_file,
            };
            let n = st.segments.len() as int;
            assert(segments_cover(s, next.segments, r.pos)) by {
                assert forall|q: int| 0 <= q < r.pos && #[trigger] is_word_byte(s[q]) implies covered_by_segments(
                    next.segments,
                    q,
                ) || in_redirection(s, q) by {
                    if q < st.pos {
                        if covered_by_segments(st.segments, q) {
                            let (k, m) = choose|k: int, m: int|
                                0 <= k < st.segments.len() && 0 <= m < st.segments[k].len()
                                    && #[trigger] arg_covers(st.segments[k][m], q);
                            assert(next.segments[k] == st.segments[k]);
                            assert(arg_covers(next.segments[k][m], q));
                        }
                    } else if q < j {
                        assert(!is_word_byte(s[q]));
                    } else {
                        if covered_by_args(r.args, q) {
                            let m = choose|m: int| 0 <= m < r.args.len() && #[trigger] arg_covers(r.args[m], q);
                            assert(next.segments[n] == r.args);
                            assert(arg_covers(next.segments[n][m], q));
                        }
                    }
                }
            }
            lemma_scan_pipeline_complete(s, next);
            assert(scan_pipeline(s, st) == scan_pipeline(s, next));
        }
    }
}

/// Nothing typed is lost: when the pipeline did not reach `MAX_SEGMENTS`
/// segments, every byte of the line other than whitespace and `|` lies in
/// an argument of some segment, or in a redirection (the `<` or `>` at the
/// start of a word, and the word after it), or is the lone `&` that set
/// the background flag.
pub proof fn lemma_parse_complete(s: Seq<u8>, q: int)
    requires
        s.len() <= usize::MAX,
        spec_parse(s).segments.len() < MAX_SEGMENTS,
        0 <= q < s.len(),
        is_word_byte(s[q]),
    ensures
        covered_by_segments(spec_parse(s).segments, q) || in_redirection(s, q) || (spec_parse(
            s,
        ).background && s[q] == AMP && starts_word(s, q) && ends_word(s, q + 1)),
{
    let init = initial_scan();
    lemma_scan_pipeline_complete(s, init);
    lemma_scan_pipeline(s, init);
    lemma_scan_pipeline_shape(s, init);
    let r = scan_pipeline(s, init);
    let p = spec_parse(s);
    assert(r.segments.len() == p.segments.len());
    assert(r.pos == s.len());
    if !in_redirection(s, q) {
        assert(covered_by_segments(r.segments, q));
        let (k, m) = choose|k: int, m: int|
            0 <= k < r.segments.len() && 0 <= m < r.segments[k].len() && #[trigger] arg_covers(
                r.segments[k][m],
                q,
            );
        if ends_in_ampersand(s, r.segments) {
            let last = r.segments.len() - 1;
            if k == last && m == r.segments[k].len() - 1 {
                assert(args_shape(s, r.segments[k]));
                assert(is_maximal_word(s, r.segments[k][m]));
                assert(r.segments[k][m].0 == q);
            } else {
                assert(p.segments[k][m] == r.segments[k][m]);
                assert(arg_covers(p.segments[k][m], q));
            }
        } else {
            assert(arg_covers(p.segments[k][m], q));
        }
    }
}


/// `seg_to_args` hands on the bytes of an argument from its offset on, at
/// most 63 of them.
pub proof fn lemma_arg_bytes_cut(line: Seq<u8>, t: (usize, usize))
    ensures
        ARG_BYTES_MAX == 63,
        arg_bytes(line, t) == line.subrange(t.0 as int, t.0 + if t.1 <= 63 { t.1 as int } else { 63 }),
{
}


/// `f` is unset, `(0, 0)`, or the word after an operator `op` that starts
/// a word of `s`, past the blanks that follow the operator.
pub open spec fn redirection_target(s: Seq<u8>, f: (usize, usize), op: u8) -> bool {
    f == (0usize, 0usize) || exists|j: int|
        0 <= j < s.len() && s[j] == op && starts_word(s, j) && scan_while(s, j + 1, ws_pred())
            == f.0 && #[trigger] redirection_end(s, j) == f.0 + f.1
}

proof fn lemma_scan_segment_targets(s: Seq<u8>, st: SegScan)
    requires
        s.len() <= usize::MAX,
        0 <= st.pos <= s.len(),
        at_boundary(s, st.pos),
        redirection_target(s, st.stdout_file, GT),
        redirection_target(s, st.stdin_file, LT),
    ensures
        redirection_target(s, scan_segment(s, st).stdout_file, GT),
        redirection_target(s, scan_segment(s, st).stdin_file, LT),
        at_boundary(s, scan_segment(s, st).pos),
    decreases s.len() - st.pos,
{
    if 0 <= st.pos < s.len() && s[st.pos] != PIPE && st.args.len() < MAX_ARGS_PER {
        let j = scan_while(s, st.pos, ws_pred());
        lemma_scan_while(s, st.pos, ws_pred());
        if j >= s.len() || s[j] == PIPE {
        } else {
            assert(!ws_pred()(s[j]));
            assert(starts_word(s, j)) by {
                if j > st.pos {
                    assert(ws_pred()(s[j - 1]));
                }
            }
            if s[j] == GT || s[j] == LT {
                let k = scan_while(s, j + 1, ws_pred());
                lemma_scan_while(s, j + 1, ws_pred());
                lemma_scan_while(s, k, word_pred());
                let e = scan_while(s, k, word_pred());
                assert(redirection_end(s, j) == e);
                let target = (k as usize, (e - k) as usize);
                assert(target.0 + target.1 == e);
                let next = if s[j] == GT {
                    SegScan { pos: e, args: st.args, stdout_file: target, stdin_file: st.stdin_file }
                } else {
                    SegScan { pos: e, args: st.args, stdout_file: st.stdout_file, stdin_file: target }
                };
                assert(ends_word(s, e)) by {
                    if e < s.len() {
                        assert(!word_pred()(s[e]));
                    }
                }
                lemma_scan_segment_targets(s, next);
            } else {
                let e = scan_while(s, j, word_pred());
                lemma_scan_while(s, j, word_pred());
                assert(word_pred()(s[j]));
                let next = SegScan {
                    pos: e,
                    args: st.args.push((j as usize, (e - j) as usize)),
                    stdout_file: st.stdout_file,
                    stdin_file: st.stdin_file,
                };
                assert(ends_word(s, e)) by {
                    if e < s.len() {
                        assert(!word_pred()(s[e]));
                    }
                }
                lemma_scan_segment_targets(s, next);
            }
        }
    }
}

proof fn lemma_scan_pipeline_targets(s: Seq<u8>, st: PipeScan)
    requires
        s.len() <= usize::MAX,
        0 <= st.pos <= s.len(),
        at_boundary(s, st.pos),
        redirection_target(s, st.stdout_file, GT),
        redirection_target(s, st.stdin_file, LT),
    ensures
        redirection_target(s, scan_pipeline(s, st).stdout_file, GT),
        redirection_target(s, scan_pipeline(s, st).stdin_file, LT),
    decreases s.len() - st.pos,
{
    if 0 <= st.pos < s.len() && st.segments.len() < MAX_SEGMENTS {
        let j = scan_while(s, st.pos, sep_pred());
        lemma_scan_while(s, st.pos, sep_pred());
        if j < s.len() {
            let start = SegScan {
                pos: j,
                args: seq![],
                stdout_file: st.stdout_file,
                stdin_file: st.stdin_file,
            };
            assert(!sep_pred()(s[j]));
            assert(starts_word(s, j)) by {
                if j > st.pos {
                    assert(sep_pred()(s[j - 1]));
                }
            }
            lemma_scan_segment_advances(s, start);
            lemma_scan_segment_targets(s, start);
            let r = scan_segment(s, start);
            let next = PipeScan {
                pos: r.pos,
                segments: st.segments.push(r.args),
                stdout_file: r.stdout_file,
                stdin_file: r.stdin_file,
            };
            lemma_scan_pipeline_targets(s, next);
            assert(scan_pipeline(s, st) == scan_pipeline(s, next));
        }
    }
}

/// The output file that `parse` returns is unset, `(0, 0)`, or the word
/// after a `>` that starts a word of the line; the input file likewise
/// with `<`.
pub proof fn lemma_parse_redirections(s: Seq<u8>)
    requires
        s.len() <= usize::MAX,
    ensures
        redirection_target(s, spec_parse(s).stdout_file, GT),
        redirection_target(s, spec_parse(s).stdin_file, LT),
{
    lemma_scan_pipeline_targets(s, initial_scan());
}

} // verus!
