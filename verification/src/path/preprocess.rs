use vstd::prelude::*;

verus! {

/// Line feeds become spaces.
pub open spec fn spaced(s: Seq<u8>) -> Seq<u8> {
    s.map_values(|b: u8| if b == 10 { 32u8 } else { b })
}

/// ASCII whitespace: space, tab, carriage return, line feed, form feed,
/// vertical tab.
pub open spec fn is_space(b: u8) -> bool {
    b == 32 || b == 9 || b == 13 || b == 10 || b == 12 || b == 11
}

/// The output for `t[i..]`: every byte is copied, and a single whitespace byte
/// right after a `-` is dropped.
pub open spec fn preprocess_from(t: Seq<u8>, i: int) -> Seq<u8>
    decreases t.len() - i,
{
    if i < 0 || i >= t.len() {
        seq![]
    } else if t[i] == 45 && i + 1 < t.len() && is_space(t[i + 1]) {
        seq![t[i]] + preprocess_from(t, i + 2)
    } else {
        seq![t[i]] + preprocess_from(t, i + 1)
    }
}

/// Path preprocessing: line feeds become spaces, then one whitespace byte right
/// after each `-` is dropped.
pub open spec fn spec_preprocess(s: Seq<u8>) -> Seq<u8> {
    preprocess_from(spaced(s), 0)
}

proof fn lemma_preprocess_no_line_feed(t: Seq<u8>, i: int)
    requires
        forall|k: int| 0 <= k < t.len() ==> #[trigger] t[k] != 10,
    ensures
        forall|k: int|
            0 <= k < preprocess_from(t, i).len() ==> #[trigger] preprocess_from(t, i)[k] != 10,
    decreases t.len() - i,
{
    if 0 <= i < t.len() {
        let head = seq![t[i]];
        let next = if t[i] == 45 && i + 1 < t.len() && is_space(t[i + 1]) {
            i + 2
        } else {
            i + 1
        };
        lemma_preprocess_no_line_feed(t, next);
        let tail = preprocess_from(t, next);
        assert(preprocess_from(t, i) == head + tail);
        assert forall|k: int| 0 <= k < (head + tail).len() implies #[trigger] (head + tail)[k] != 10 by {
            if k >= head.len() {
                assert((head + tail)[k] == tail[k - head.len()]);
            }
        }
    }
}

/// Prepares path data for parsing: every line feed becomes a space, then one
/// whitespace byte right after each `-` is dropped; every other byte is kept, in
/// order.
pub fn preprocess_path(d: &[u8]) -> (r: Vec<u8>)
    ensures
        r@ == spec_preprocess(d@),
        forall|k: int| 0 <= k < r@.len() ==> #[trigger] r@[k] != 10,
{
    let mut b: Vec<u8> = Vec::new();
    let mut j: usize = 0;
    while j < d.len()
        invariant
            j <= d.len(),
            b@ == spaced(d@).subrange(0, j as int),
        decreases d.len() - j,
    {
        let c = d[j];
        b.push(if c == 10u8 { 32u8 } else { c });
        j += 1;
        assert(b@ =~= spaced(d@).subrange(0, j as int));
    }
    assert(b@ =~= spaced(d@));
    let ghost t = b@;
    let mut out: Vec<u8> = Vec::new();
    let mut i: usize = 0;
    assert(out@ + preprocess_from(t, 0) =~= preprocess_from(t, 0));
    while i < b.len()
        invariant
            i <= b.len(),
            b@ == t,
            out@ + preprocess_from(t, i as int) == preprocess_from(t, 0),
        decreases b.len() - i,
    {
        let c = b[i];
        let ghost before = out@;
        out.push(c);
        if c == 45u8 && i + 1 < b.len() {
            let nx = b[i + 1];
            if nx == 32u8 || nx == 9u8 || nx == 13u8 || nx == 10u8 || nx == 12u8 || nx == 11u8 {
                assert(before + (seq![c] + preprocess_from(t, i + 2)) =~= out@ + preprocess_from(t, i + 2));
                i += 2;
                continue;
            }
        }
        assert(before + (seq![c] + preprocess_from(t, i + 1)) =~= out@ + preprocess_from(t, i + 1));
        i += 1;
    }
    assert(out@ + preprocess_from(t, i as int) =~= out@);
    proof {
        lemma_preprocess_no_line_feed(t, 0);
    }
    out
}

proof fn lemma_preprocess_suffix(x: Seq<u8>, y: Seq<u8>, j: int)
    requires
        0 <= j <= y.len(),
    ensures
        preprocess_from(x + y, x.len() + j) == preprocess_from(y, j),
    decreases y.len() - j,
{
    let t = x + y;
    if j < y.len() {
        assert(t[x.len() + j] == y[j]);
        if j + 1 < y.len() {
            assert(t[x.len() + j + 1] == y[j + 1]);
        }
        lemma_preprocess_suffix(x, y, j + 1);
        if j + 2 <= y.len() {
            lemma_preprocess_suffix(x, y, j + 2);
        }
    }
}

proof fn lemma_preprocess_dash_free(t: Seq<u8>, i: int, e: int)
    requires
        0 <= i <= e <= t.len(),
        forall|k: int| i <= k < e ==> #[trigger] t[k] != 45,
    ensures
        preprocess_from(t, i) == t.subrange(i, e) + preprocess_from(t, e),
    decreases e - i,
{
    if i < e {
        lemma_preprocess_dash_free(t, i + 1, e);
        assert(t.subrange(i, e) =~= seq![t[i]] + t.subrange(i + 1, e));
        assert(seq![t[i]] + (t.subrange(i + 1, e) + preprocess_from(t, e)) =~= t.subrange(i, e)
            + preprocess_from(t, e));
    } else {
        assert(t.subrange(i, e) + preprocess_from(t, e) =~= preprocess_from(t, e));
    }
}

/// Path data without a `-` loses no byte: it comes out with the same length,
/// each line feed turned into a space and every other byte unchanged.
pub proof fn dash_free_data_keeps_every_byte(s: Seq<u8>)
    requires
        forall|k: int| 0 <= k < s.len() ==> #[trigger] s[k] != 45,
    ensures
        spec_preprocess(s).len() == s.len(),
        forall|k: int|
            0 <= k < s.len() ==> #[trigger] spec_preprocess(s)[k] == if s[k] == 10 {
                32u8
            } else {
                s[k]
            },
{
    let t = spaced(s);
    lemma_preprocess_dash_free(t, 0, t.len() as int);
    assert(t.subrange(0, t.len() as int) + preprocess_from(t, t.len() as int) =~= t);
}

/// One whitespace byte right after a `-` is dropped and the rest is prepared on
/// its own: for text `a` without a `-`, `a - w b` (with `w` a space, tab,
/// carriage return, line feed, form feed or vertical tab) comes out as the
/// output of `a`, then `-`, then the output of `b`.
pub proof fn whitespace_after_dash_is_dropped(a: Seq<u8>, w: u8, b: Seq<u8>)
    requires
        forall|k: int| 0 <= k < a.len() ==> #[trigger] a[k] != 45,
        w == 32 || w == 9 || w == 13 || w == 10 || w == 12 || w == 11,
    ensures
        spec_preprocess(a + seq![45u8, w] + b) == spec_preprocess(a) + seq![45u8] + spec_preprocess(b),
{
    let s = a + seq![45u8, w] + b;
    let t = spaced(s);
    let w2: u8 = if w == 10 { 32u8 } else { w };
    let head = spaced(a) + seq![45u8, w2];
    assert(t =~= head + spaced(b));
    let n = a.len() as int;
    assert forall|k: int| 0 <= k < n implies #[trigger] t[k] != 45 by {
        assert(t[k] == spaced(a)[k]);
    }
    lemma_preprocess_dash_free(t, 0, n);
    assert(t[n] == 45);
    assert(t[n + 1] == w2);
    assert(preprocess_from(t, n) == seq![45u8] + preprocess_from(t, n + 2));
    lemma_preprocess_suffix(head, spaced(b), 0);
    assert(preprocess_from(t, n + 2) == preprocess_from(spaced(b), 0));
    dash_free_data_keeps_every_byte(a);
    assert(t.subrange(0, n) =~= spaced(a));
    let pa = spaced(a);
    lemma_preprocess_dash_free(pa, 0, n);
    assert(pa.subrange(0, n) + preprocess_from(pa, n) =~= pa);
    assert(spec_preprocess(a) == pa);
    assert(spaced(a) + (seq![45u8] + preprocess_from(spaced(b), 0)) =~= spec_preprocess(a)
        + seq![45u8] + spec_preprocess(b));
}

/// Preprocessing never lengthens path data.
pub proof fn preprocess_never_lengthens(s: Seq<u8>)
    ensures
        spec_preprocess(s).len() <= s.len(),
{
    lemma_preprocess_len(spaced(s), 0);
}

proof fn lemma_preprocess_len(t: Seq<u8>, i: int)
    requires
        0 <= i <= t.len(),
    ensures
        preprocess_from(t, i).len() <= t.len() - i,
    decreases t.len() - i,
{
    if i < t.len() {
        if t[i] == 45 && i + 1 < t.len() && is_space(t[i + 1]) {
            lemma_preprocess_len(t, i + 2);
        } else {
            lemma_preprocess_len(t, i + 1);
        }
    }
}

} // verus!
