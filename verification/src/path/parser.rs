use vstd::prelude::*;
use crate::path::lexer::{
    Tok, is_command, lemma_tokenize_cmds_from_source, spec_params_count, params_count, number_len, spec_tokenize, tokenize,
    tokens_valid_from, lemma_tokenize_valid,
};

verus! {

/// A parsed path segment: a command letter and its numbers, each number kept as
/// the `(start, length)` of its text in the parsed source.
#[derive(Debug, PartialEq, Eq)]
pub struct Seg {
    pub key: u8,
    pub data: Vec<(usize, usize)>,
}

pub struct SpecSeg {
    pub key: u8,
    pub data: Seq<(usize, usize)>,
}

impl View for Seg {
    type V = SpecSeg;

    open spec fn view(&self) -> SpecSeg {
        SpecSeg { key: self.key, data: self.data@ }
    }
}

pub open spec fn seg_views(v: Seq<Seg>) -> Seq<SpecSeg> {
    v.map_values(|s: Seg| s@)
}

/// Where a parse over a token sequence ends up: a list of segments; the finding
/// that the data does not begin with a moveto, so that it is to be parsed again
/// behind `M0,0`; or a state that the parser never leaves (a number that
/// follows a closepath, which takes no numbers, so that the parser emits
/// closepath segments forever without consuming it).
pub enum Run {
    Done(Seq<SpecSeg>),
    Restart,
    Stuck,
}

pub open spec fn cmds_valid(toks: Seq<Tok>) -> bool {
    forall|k: int| 0 <= k < toks.len() ==> (#[trigger] toks[k] matches Tok::Cmd(c) ==> is_command(c))
}

pub open spec fn mode_ok(mode: u8) -> bool {
    mode == 0 || is_command(mode)
}

pub open spec fn is_closepath(c: u8) -> bool {
    c == 90 || c == 122
}

pub open spec fn is_moveto(c: u8) -> bool {
    c == 77 || c == 109
}

pub open spec fn all_nums(toks: Seq<Tok>, a: int, b: int) -> bool {
    forall|k: int| a <= k < b ==> #[trigger] toks[k] is Num
}

pub open spec fn num_span(t: Tok) -> (usize, usize) {
    match t {
        Tok::Num { start, len } => (start, len),
        Tok::Cmd(_) => (0, 0),
    }
}

pub open spec fn spans(toks: Seq<Tok>, a: int, n: int) -> Seq<(usize, usize)> {
    Seq::new(n as nat, |k: int| num_span(toks[a + k]))
}

/// After a moveto, further coordinate pairs are lineto's of the same kind.
pub open spec fn next_mode(key: u8) -> u8 {
    if key == 77 {
        76
    } else if key == 109 {
        108
    } else {
        key
    }
}

pub open spec fn combine(p: Seq<SpecSeg>, r: Run) -> Run {
    match r {
        Run::Done(t) => Run::Done(p + t),
        other => other,
    }
}

/// The parse of `toks[index..]` when the current command is `mode` (0 before the
/// first command). A command token starts a segment of its own; a number token
/// repeats the current command. Each segment takes as many numbers as its command
/// needs; when fewer are left, or a command token stands among them, parsing ends
/// with the segments found so far.
pub open spec fn run(toks: Seq<Tok>, index: int, mode: u8) -> Run
    decreases toks.len() - index,
    when cmds_valid(toks) && mode_ok(mode) && 0 <= index
{
    if index >= toks.len() {
        Run::Done(seq![])
    } else if mode == 0 && !(toks[index] matches Tok::Cmd(c) && is_moveto(c)) {
        Run::Restart
    } else if is_closepath(mode) && toks[index] is Num {
        Run::Stuck
    } else {
        let key: u8 = match toks[index] {
            Tok::Cmd(c) => c,
            Tok::Num { .. } => mode,
        };
        let first: int = match toks[index] {
            Tok::Cmd(_) => index + 1,
            Tok::Num { .. } => index,
        };
        let pn = spec_params_count(key);
        if first + pn <= toks.len() && all_nums(toks, first, first + pn) {
            let seg = SpecSeg { key, data: spans(toks, first, pn) };
            combine(seq![seg], run(toks, first + pn, next_mode(key)))
        } else {
            Run::Done(seq![])
        }
    }
}

enum RunOutcome {
    Done(Vec<Seg>),
    Restart,
    Stuck,
}

proof fn lemma_combine_assoc(p: Seq<SpecSeg>, q: Seq<SpecSeg>, r: Run)
    ensures
        combine(p, combine(q, r)) == combine(p + q, r),
{
    match r {
        Run::Done(t) => {
            assert(p + (q + t) =~= (p + q) + t);
        },
        _ => {},
    }
}

/// The numbers of the segment that starts at `first`; `None` when a command token
/// stands among them.
fn collect_params(toks: &Vec<Tok>, first: usize, count: usize) -> (r: Option<Vec<(usize, usize)>>)
    requires
        first + count <= toks.len(),
    ensures
        r is Some <==> all_nums(toks@, first as int, first + count),
        r matches Some(v) ==> v@ == spans(toks@, first as int, count as int),
{
    let mut data: Vec<(usize, usize)> = Vec::new();
    let mut k: usize = 0;
    while k < count
        invariant
            k <= count,
            first + count <= toks.len(),
            all_nums(toks@, first as int, first + k),
            data@ == spans(toks@, first as int, k as int),
        decreases count - k,
    {
        match toks[first + k] {
            Tok::Num { start, len } => {
                data.push((start, len));
            },
            Tok::Cmd(_) => {
                return None;
            },
        }
        k += 1;
        assert(data@ =~= spans(toks@, first as int, k as int));
    }
    Some(data)
}

/// Runs the parser over a token sequence from its start.
fn run_parser(toks: &Vec<Tok>) -> (r: RunOutcome)
    requires
        cmds_valid(toks@),
    ensures
        match r {
            RunOutcome::Done(v) => run(toks@, 0, 0) == Run::Done(seg_views(v@)),
            RunOutcome::Restart => run(toks@, 0, 0) is Restart,
            RunOutcome::Stuck => run(toks@, 0, 0) is Stuck,
        },
{
    let len = toks.len();
    let mut segments: Vec<Seg> = Vec::new();
    let mut mode: u8 = 0;
    let mut index: usize = 0;
    assert(combine(seq![], run(toks@, 0, 0)) == run(toks@, 0, 0)) by {
        match run(toks@, 0, 0) {
            Run::Done(t) => {
                assert(Seq::<SpecSeg>::empty() + t =~= t);
            },
            _ => {},
        }
    }
    assert(seg_views(segments@) =~= seq![]);
    while index < len
        invariant
            index <= len,
            len == toks.len(),
            cmds_valid(toks@),
            mode_ok(mode),
            run(toks@, 0, 0) == combine(seg_views(segments@), run(toks@, index as int, mode)),
        decreases len - index,
    {
        let tok = toks[index];
        let key: u8;
        let first: usize;
        if mode == 0 {
            match tok {
                Tok::Cmd(c) => {
                    if c == 77u8 || c == 109u8 {
                        key = c;
                        first = index + 1;
                    } else {
                        return RunOutcome::Restart;
                    }
                },
                Tok::Num { .. } => {
                    return RunOutcome::Restart;
                },
            }
        } else {
            match tok {
                Tok::Num { .. } => {
                    if mode == 90u8 || mode == 122u8 {
                        return RunOutcome::Stuck;
                    }
                    key = mode;
                    first = index;
                },
                Tok::Cmd(c) => {
                    key = c;
                    first = index + 1;
                },
            }
        }
        let pn = params_count(key);
        let count = pn as usize;
        if count <= len - first {
            match collect_params(toks, first, count) {
                Some(data) => {
                    let seg = Seg { key, data };
                    let ghost before = segments@;
                    segments.push(seg);
                    proof {
                        let sv = SpecSeg { key, data: spans(toks@, first as int, count as int) };
                        assert(seg@ == sv);
                        assert(seg_views(segments@) =~= seg_views(before) + seq![sv]);
                        lemma_combine_assoc(
                            seg_views(before),
                            seq![sv],
                            run(toks@, first + count, next_mode(key)),
                        );
                    }
                    index = first + count;
                    mode = if key == 77u8 {
                        76u8
                    } else if key == 109u8 {
                        108u8
                    } else {
                        key
                    };
                },
                None => {
                    assert(seg_views(segments@) + seq![] =~= seg_views(segments@));
                    return RunOutcome::Done(segments);
                },
            }
        } else {
            assert(seg_views(segments@) + seq![] =~= seg_views(segments@));
            return RunOutcome::Done(segments);
        }
    }
    assert(seg_views(segments@) + seq![] =~= seg_views(segments@));
    RunOutcome::Done(segments)
}

/// The tokens of `s`, or none when `s` does not tokenize.
pub open spec fn token_seq(s: Seq<u8>) -> Seq<Tok> {
    match spec_tokenize(s, 0) {
        Some(t) => t,
        None => seq![],
    }
}

/// The text `M0,0` that is put in front of path data that does not start with a moveto.
pub open spec fn move_prefix() -> Seq<u8> {
    seq![77u8, 48u8, 44u8, 48u8]
}

/// The text that is actually parsed: `s` itself, or `M0,0` followed by `s` when
/// the tokens of `s` do not begin with a moveto.
pub open spec fn path_source(s: Seq<u8>) -> Seq<u8> {
    if run(token_seq(s), 0, 0) is Restart {
        move_prefix() + s
    } else {
        s
    }
}

pub open spec fn path_outcome(s: Seq<u8>) -> Run {
    run(token_seq(path_source(s)), 0, 0)
}

/// The parser never returns on `s`.
pub open spec fn path_diverges(s: Seq<u8>) -> bool {
    path_outcome(s) is Stuck
}

/// The segments of path data `s`, their numbers given as spans of `path_source(s)`.
pub open spec fn path_segments(s: Seq<u8>) -> Seq<SpecSeg> {
    match path_outcome(s) {
        Run::Done(v) => v,
        _ => seq![],
    }
}

/// What a segment list promises: every key is a command letter, every segment
/// carries exactly as many numbers as its command takes, every number is the
/// complete text of an SVG number in `source`, and the first segment is a moveto.
pub open spec fn segments_well_formed(source: Seq<u8>, segs: Seq<SpecSeg>) -> bool {
    &&& forall|i: int| 0 <= i < segs.len() ==> is_command(#[trigger] segs[i].key)
    &&& forall|i: int|
        0 <= i < segs.len() ==> #[trigger] segs[i].data.len() == spec_params_count(segs[i].key)
    &&& forall|i: int, j: int|
        0 <= i < segs.len() && 0 <= j < segs[i].data.len() ==> {
            let (start, len) = #[trigger] segs[i].data[j];
            &&& start + len <= source.len()
            &&& number_len(source, start as int) == Some(len as int)
        }
    &&& segs.len() > 0 ==> is_moveto(segs[0].key)
}

/// The result of a run whose state is a command (not the initial state) is never a
/// request to start over.
proof fn lemma_run_no_restart_after_start(toks: Seq<Tok>, index: int, mode: u8)
    requires
        cmds_valid(toks),
        is_command(mode),
        0 <= index,
    ensures
        !(run(toks, index, mode) is Restart),
    decreases toks.len() - index,
{
    if index < toks.len() && !(is_closepath(mode) && toks[index] is Num) {
        let key: u8 = match toks[index] {
            Tok::Cmd(c) => c,
            Tok::Num { .. } => mode,
        };
        let first: int = match toks[index] {
            Tok::Cmd(_) => index + 1,
            Tok::Num { .. } => index,
        };
        let pn = spec_params_count(key);
        if first + pn <= toks.len() && all_nums(toks, first, first + pn) {
            lemma_run_no_restart_after_start(toks, first + pn, next_mode(key));
        }
    }
}

/// Segments produced from valid tokens are well formed, apart from the claim on
/// the first key, which `lemma_run_first_is_moveto` adds.
proof fn lemma_run_well_formed(s: Seq<u8>, toks: Seq<Tok>, index: int, mode: u8)
    requires
        cmds_valid(toks),
        tokens_valid_from(s, toks, 0),
        mode_ok(mode),
        0 <= index,
        run(toks, index, mode) is Done,
    ensures
        ({
            let segs = run(toks, index, mode)->Done_0;
            &&& forall|i: int| 0 <= i < segs.len() ==> is_command(#[trigger] segs[i].key)
            &&& forall|i: int|
                0 <= i < segs.len() ==> #[trigger] segs[i].data.len() == spec_params_count(
                    segs[i].key,
                )
            &&& forall|i: int, j: int|
                0 <= i < segs.len() && 0 <= j < segs[i].data.len() ==> {
                    let (start, len) = #[trigger] segs[i].data[j];
                    &&& start + len <= s.len()
                    &&& number_len(s, start as int) == Some(len as int)
                }
            &&& (mode == 0 && segs.len() > 0) ==> is_moveto(segs[0].key)
        }),
    decreases toks.len() - index,
{
    if index < toks.len() {
        let key: u8 = match toks[index] {
            Tok::Cmd(c) => c,
            Tok::Num { .. } => mode,
        };
        let first: int = match toks[index] {
            Tok::Cmd(_) => index + 1,
            Tok::Num { .. } => index,
        };
        let pn = spec_params_count(key);
        if first + pn <= toks.len() && all_nums(toks, first, first + pn) {
            lemma_run_well_formed(s, toks, first + pn, next_mode(key));
            let seg = SpecSeg { key, data: spans(toks, first, pn) };
            let rest = run(toks, first + pn, next_mode(key))->Done_0;
            let segs = seq![seg] + rest;
            assert(run(toks, index, mode)->Done_0 == segs);
            assert forall|i: int| 0 <= i < segs.len() implies is_command(#[trigger] segs[i].key) by {
                if i > 0 {
                    assert(segs[i] == rest[i - 1]);
                } else {
                    if toks[index] is Num {
                        assert(mode != 0);
                    } else {
                        assert(toks[index] matches Tok::Cmd(c) ==> is_command(c));
                    }
                }
            }
            assert forall|i: int| 0 <= i < segs.len() implies #[trigger] segs[i].data.len()
                == spec_params_count(segs[i].key) by {
                if i > 0 {
                    assert(segs[i] == rest[i - 1]);
                }
            }
            assert forall|i: int, j: int| 0 <= i < segs.len() && 0 <= j < segs[i].data.len() implies {
                let (start, len) = #[trigger] segs[i].data[j];
                &&& start + len <= s.len()
                &&& number_len(s, start as int) == Some(len as int)
            } by {
                if i > 0 {
                    assert(segs[i] == rest[i - 1]);
                } else {
                    assert(toks[first + j] is Num);
                    assert(segs[0].data[j] == num_span(toks[first + j]));
                }
            }
        }
    }
}

/// Without closepath commands among the tokens, and outside a closepath state,
/// the parser always returns.
proof fn lemma_run_not_stuck(toks: Seq<Tok>, index: int, mode: u8)
    requires
        cmds_valid(toks),
        mode_ok(mode),
        !is_closepath(mode),
        0 <= index,
        forall|k: int| 0 <= k < toks.len() ==> (#[trigger] toks[k] matches Tok::Cmd(c) ==> !is_closepath(c)),
    ensures
        !(run(toks, index, mode) is Stuck),
    decreases toks.len() - index,
{
    if index < toks.len() && !(mode == 0 && !(toks[index] matches Tok::Cmd(c) && is_moveto(c))) {
        let key: u8 = match toks[index] {
            Tok::Cmd(c) => c,
            Tok::Num { .. } => mode,
        };
        let first: int = match toks[index] {
            Tok::Cmd(_) => index + 1,
            Tok::Num { .. } => index,
        };
        let pn = spec_params_count(key);
        if first + pn <= toks.len() && all_nums(toks, first, first + pn) {
            lemma_run_not_stuck(toks, first + pn, next_mode(key));
        }
    }
}

/// Path data that holds no closepath letter (`Z` or `z`) always parses: the
/// parser cannot get stuck on it.
pub proof fn closepath_free_path_parses(s: Seq<u8>)
    requires
        s.len() + 4 <= usize::MAX,
        forall|k: int| 0 <= k < s.len() ==> !is_closepath(#[trigger] s[k]),
    ensures
        !path_diverges(s),
{
    lemma_path_outcome_facts(s);
    let src = path_source(s);
    assert forall|k: int| 0 <= k < src.len() implies !is_closepath(#[trigger] src[k]) by {
        if src != s {
            assert(src == move_prefix() + s);
            if k >= 4 {
                assert(src[k] == s[k - 4]);
            }
        }
    }
    let t = token_seq(src);
    if spec_tokenize(src, 0) is Some {
        lemma_tokenize_cmds_from_source(src, 0);
    }
    assert forall|k: int| 0 <= k < t.len() implies (#[trigger] t[k] matches Tok::Cmd(c) ==> !is_closepath(c)) by {
        if let Tok::Cmd(c) = t[k] {
            assert(src.contains(c));
            let p = choose|p: int| 0 <= p < src.len() && src[p] == c;
            assert(!is_closepath(src[p]));
        }
    }
    lemma_run_not_stuck(t, 0, 0);
}

/// Path data whose first token is a moveto is parsed as it stands, with no
/// `M0,0` in front.
pub proof fn moveto_first_parses_as_is(s: Seq<u8>)
    requires
        s.len() <= usize::MAX,
        token_seq(s).len() > 0,
        token_seq(s)[0] matches Tok::Cmd(c) && is_moveto(c),
    ensures
        path_source(s) == s,
{
    lemma_token_seq_valid(s);
    let t = token_seq(s);
    if let Tok::Cmd(c) = t[0] {
        let pn = spec_params_count(c);
        if 1 + pn <= t.len() && all_nums(t, 1, 1 + pn) {
            lemma_run_no_restart_after_start(t, 1 + pn, next_mode(c));
        }
    }
}

/// Numbers that follow a complete segment repeat its command: after a command
/// letter `c` (not a closepath) with its numbers, a further group of as many
/// numbers makes a second segment with those numbers whose key is `c` itself, or
/// a lineto of the same case when `c` is a moveto (`M` gives `L`, `m` gives `l`).
pub proof fn numbers_repeat_the_command(toks: Seq<Tok>, index: int, mode: u8)
    requires
        cmds_valid(toks),
        mode_ok(mode),
        0 <= index < toks.len(),
        toks[index] matches Tok::Cmd(c) && is_command(c) && !is_closepath(c) && (mode != 0
            || is_moveto(c)),
        ({
            let n = spec_params_count(toks[index]->Cmd_0);
            &&& index + 1 + 2 * n <= toks.len()
            &&& forall|k: int| index + 1 <= k < index + 1 + 2 * n ==> #[trigger] toks[k] is Num
        }),
    ensures
        !(run(toks, index, mode) is Restart),
        ({
            let c = toks[index]->Cmd_0;
            let n = spec_params_count(c);
            run(toks, index, mode) matches Run::Done(segs) ==> {
                &&& segs.len() >= 2
                &&& segs[0].key == c
                &&& segs[0].data == spans(toks, index + 1, n)
                &&& segs[1].key == (if c == 77 {
                    76u8
                } else if c == 109 {
                    108u8
                } else {
                    c
                })
                &&& segs[1].data == spans(toks, index + 1 + n, n)
            }
        }),
{
    let c = toks[index]->Cmd_0;
    let n = spec_params_count(c);
    assert(all_nums(toks, index + 1, index + 1 + n));
    let mode2 = next_mode(c);
    let i2 = index + 1 + n;
    assert(n >= 1);
    assert(toks[i2] is Num);
    assert(spec_params_count(mode2) == n);
    assert(all_nums(toks, i2, i2 + n));
    let seg1 = SpecSeg { key: c, data: spans(toks, index + 1, n) };
    let seg2 = SpecSeg { key: mode2, data: spans(toks, i2, n) };
    assert(run(toks, index, mode) == combine(seq![seg1], run(toks, i2, mode2)));
    assert(run(toks, i2, mode2) == combine(seq![seg2], run(toks, i2 + n, next_mode(mode2))));
    lemma_run_no_restart_after_start(toks, i2 + n, next_mode(mode2));
    match run(toks, i2 + n, next_mode(mode2)) {
        Run::Done(rest) => {
            let segs = seq![seg1] + (seq![seg2] + rest);
            assert(segs[0] == seg1);
            assert(segs[1] == seg2);
        },
        _ => {},
    }
}

/// A closepath (`Z` or `z`) takes no numbers, so a number token right after one
/// that the parse reaches can never be consumed: the parser never returns.
pub proof fn number_after_closepath_never_returns(toks: Seq<Tok>, index: int, mode: u8)
    requires
        cmds_valid(toks),
        mode_ok(mode),
        mode != 0,
        0 <= index,
        index + 1 < toks.len(),
        toks[index] == Tok::Cmd(90u8) || toks[index] == Tok::Cmd(122u8),
        toks[index + 1] is Num,
    ensures
        run(toks, index, mode) is Stuck,
{
    let c = toks[index]->Cmd_0;
    assert(spec_params_count(c) == 0);
    assert(all_nums(toks, index + 1, index + 1));
    assert(run(toks, index + 1, next_mode(c)) is Stuck);
}

/// Path data whose tokens do not begin with a moveto is parsed with the four
/// bytes `M0,0` in front of it; otherwise it is parsed as it stands.
pub proof fn missing_moveto_gets_origin_prefix(s: Seq<u8>)
    requires
        s.len() <= usize::MAX,
    ensures
        (token_seq(s).len() > 0 && !(token_seq(s)[0] matches Tok::Cmd(c) && is_moveto(c)))
            ==> path_source(s) == seq![77u8, 48u8, 44u8, 48u8] + s,
        !(token_seq(s).len() > 0 && !(token_seq(s)[0] matches Tok::Cmd(c) && is_moveto(c)))
            ==> path_source(s) == s,
{
    lemma_token_seq_valid(s);
    if token_seq(s).len() > 0 && (token_seq(s)[0] matches Tok::Cmd(c) && is_moveto(c)) {
        moveto_first_parses_as_is(s);
    } else if token_seq(s).len() > 0 {
        assert(run(token_seq(s), 0, 0) is Restart);
        assert(move_prefix() == seq![77u8, 48u8, 44u8, 48u8]);
    }
}

/// The parse of path data, with the text that was parsed.
#[derive(Debug)]
pub struct ParsedPath {
    pub source: Vec<u8>,
    pub segments: Vec<Seg>,
}

/// Both the tokens of `s` and those of `M0,0` followed by `s` are valid, and the
/// run over the parsed text never asks to start over.
proof fn lemma_path_outcome_facts(s: Seq<u8>)
    requires
        s.len() + 4 <= usize::MAX,
    ensures
        cmds_valid(token_seq(s)),
        tokens_valid_from(s, token_seq(s), 0),
        cmds_valid(token_seq(path_source(s))),
        tokens_valid_from(path_source(s), token_seq(path_source(s)), 0),
        !(path_outcome(s) is Restart),
{
    lemma_token_seq_valid(s);
    let p = move_prefix() + s;
    lemma_token_seq_valid(p);
    if run(token_seq(s), 0, 0) is Restart {
        assert(p[0] == 77u8);
        assert(spec_tokenize(p, 0) == crate::path::lexer::prepend(
            seq![Tok::Cmd(77u8)],
            spec_tokenize(p, 1),
        ));
        let t = token_seq(p);
        if t.len() > 0 {
            assert(t[0] == Tok::Cmd(77u8));
            let pn = spec_params_count(77u8);
            if 1 + pn <= t.len() && all_nums(t, 1, 1 + pn) {
                lemma_run_no_restart_after_start(t, 1 + pn, next_mode(77u8));
            }
        }
    }
}

proof fn lemma_token_seq_valid(s: Seq<u8>)
    requires
        s.len() <= usize::MAX,
    ensures
        cmds_valid(token_seq(s)),
        tokens_valid_from(s, token_seq(s), 0),
{
    if spec_tokenize(s, 0) is Some {
        lemma_tokenize_valid(s, 0);
    }
    let t = token_seq(s);
    assert forall|k: int| 0 <= k < t.len() implies (#[trigger] t[k] matches Tok::Cmd(c) ==> is_command(c)) by {
        assert(tokens_valid_from(s, t, 0));
    }
}

/// The segments of parsed path data are well formed.
pub proof fn path_segments_well_formed(s: Seq<u8>)
    requires
        s.len() + 4 <= usize::MAX,
        !path_diverges(s),
    ensures
        segments_well_formed(path_source(s), path_segments(s)),
{
    lemma_path_outcome_facts(s);
    lemma_run_well_formed(path_source(s), token_seq(path_source(s)), 0, 0);
}

fn token_list(d: &[u8]) -> (t: Vec<Tok>)
    ensures
        t@ == token_seq(d@),
{
    match tokenize(d) {
        Some(t) => t,
        None => Vec::new(),
    }
}

/// Parses path data, or returns `None` exactly when the parser would never
/// return (a number right after a closepath, see `Run::Stuck`). When the tokens
/// of `d` do not begin with a moveto, `M0,0` followed by `d` is parsed instead,
/// and the result's `source` is that text.
pub fn parse_path_checked(d: &[u8]) -> (r: Option<ParsedPath>)
    requires
        d@.len() + 4 <= usize::MAX,
    ensures
        r is None <==> path_diverges(d@),
        r matches Some(p) ==> p.source@ == path_source(d@) && seg_views(p.segments@) == path_segments(d@),
        r matches Some(p) ==> segments_well_formed(p.source@, seg_views(p.segments@)),
{
    proof {
        lemma_path_outcome_facts(d@);
        if !path_diverges(d@) {
            path_segments_well_formed(d@);
        }
    }
    let toks = token_list(d);
    match run_parser(&toks) {
        RunOutcome::Done(segments) => Some(ParsedPath { source: vstd::slice::slice_to_vec(d), segments }),
        RunOutcome::Stuck => None,
        RunOutcome::Restart => {
            let mut source: Vec<u8> = vec![77u8, 48u8, 44u8, 48u8];
            let mut i: usize = 0;
            while i < d.len()
                invariant
                    i <= d.len(),
                    source@ == move_prefix() + d@.subrange(0, i as int),
                decreases d.len() - i,
            {
                source.push(d[i]);
                i += 1;
                assert(source@ =~= move_prefix() + d@.subrange(0, i as int));
            }
            assert(d@.subrange(0, d@.len() as int) =~= d@);
            let toks2 = token_list(source.as_slice());
            match run_parser(&toks2) {
                RunOutcome::Done(segments) => Some(ParsedPath { source, segments }),
                RunOutcome::Stuck => None,
                RunOutcome::Restart => {
                    assert(false);
                    None
                },
            }
        },
    }
}

/// Parses path data (see `parse_path_checked`) on the inputs on which the parser
/// returns.
pub fn parse_path(d: &[u8]) -> (r: ParsedPath)
    requires
        d@.len() + 4 <= usize::MAX,
        !path_diverges(d@),
    ensures
        r.source@ == path_source(d@),
        seg_views(r.segments@) == path_segments(d@),
        segments_well_formed(r.source@, seg_views(r.segments@)),
{
    match parse_path_checked(d) {
        Some(p) => p,
        None => {
            assert(false);
            ParsedPath { source: Vec::new(), segments: Vec::new() }
        },
    }
}

} // verus!
