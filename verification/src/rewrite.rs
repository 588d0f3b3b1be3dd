use vstd::prelude::*;

use crate::text::{has_byte, has_token_at, is_word_byte, lemma_split_concat, lemma_split_len, lemma_split_pieces_free, split_at_sep, split_bytes, token_at, word_byte, NL};
use crate::{dark_seq, light_seq, mode_seq, mode_token, SunState};

verus! {

/// Byte sequence of the literal anchor prefix `colors: *`.
pub open spec fn anchor_seq() -> Seq<u8> {
    seq![99u8, 111u8, 108u8, 111u8, 114u8, 115u8, 58u8, 32u8, 42u8]  // c o l o r s : space *
}

/// Builds the anchor prefix.
fn anchor_token() -> (t: Vec<u8>)
    ensures
        t@ == anchor_seq(),
{
    let mut t: Vec<u8> = Vec::new();
    t.push(99);  // c
    t.push(111);  // o
    t.push(108);  // l
    t.push(111);  // o
    t.push(114);  // r
    t.push(115);  // s
    t.push(58);  // :
    t.push(32);  // space
    t.push(42);  // *
    proof {
        assert(t@ =~= anchor_seq());
    }
    t
}

/// The end of the run of word bytes that starts at `r`: the first index at or
/// after `r` that is past the end or holds a non-word byte.
pub open spec fn run_end(s: Seq<u8>, r: int) -> int
    decreases s.len() - r,
{
    if r < 0 || r >= s.len() || !is_word_byte(s[r]) {
        r
    } else {
        run_end(s, r + 1)
    }
}

pub proof fn lemma_run_end(s: Seq<u8>, r: int)
    requires
        0 <= r <= s.len(),
    ensures
        r <= run_end(s, r) <= s.len(),
        forall|j: int| r <= j < run_end(s, r) ==> is_word_byte(s[j]),
        run_end(s, r) < s.len() ==> !is_word_byte(s[run_end(s, r)]),
    decreases s.len() - r,
{
    if r < s.len() && is_word_byte(s[r]) {
        lemma_run_end(s, r + 1);
    }
}

pub proof fn lemma_run_end_all_word(s: Seq<u8>, r: int)
    requires
        0 <= r <= s.len(),
        forall|j: int| r <= j < s.len() ==> is_word_byte(s[j]),
    ensures
        run_end(s, r) == s.len(),
    decreases s.len() - r,
{
    if r < s.len() {
        lemma_run_end_all_word(s, r + 1);
    }
}

/// A mode token (`light` or `dark`) sits at `m`: strictly after the run start
/// `r` (the prefix must be nonempty) and with at least one word byte of the
/// run, which ends at `e`, left after it (the suffix must be nonempty).
pub open spec fn mode_ok(s: Seq<u8>, r: int, e: int, m: int) -> bool {
    r < m && ((token_at(s, m, light_seq()) && m + 5 < e) || (token_at(s, m, dark_seq()) && m + 4
        < e))
}

/// The rightmost admissible mode position in `(r, k]`, or -1: the greedy
/// nonempty prefix claims every word byte it can.
pub open spec fn best_mode_from(s: Seq<u8>, r: int, k: int, e: int) -> int
    decreases k - r,
{
    if k <= r {
        -1
    } else if mode_ok(s, r, e, k) {
        k
    } else {
        best_mode_from(s, r, k - 1, e)
    }
}

/// The rightmost admissible mode position of the run `[r, e)`, or -1.
pub open spec fn best_mode(s: Seq<u8>, r: int, e: int) -> int {
    best_mode_from(s, r, e, e)
}

pub proof fn lemma_best_mode_from(s: Seq<u8>, r: int, k: int, e: int)
    ensures
        ({
            let m = best_mode_from(s, r, k, e);
            &&& (m == -1 ==> forall|q: int| r < q <= k ==> !mode_ok(s, r, e, q))
            &&& (m != -1 ==> r < m <= k && mode_ok(s, r, e, m) && (forall|q: int|
                m < q <= k ==> !mode_ok(s, r, e, q)))
        }),
    decreases k - r,
{
    if k <= r {
    } else if mode_ok(s, r, e, k) {
    } else {
        lemma_best_mode_from(s, r, k - 1, e);
    }
}

pub proof fn lemma_best_mode(s: Seq<u8>, r: int, e: int)
    ensures
        ({
            let m = best_mode(s, r, e);
            &&& (m == -1 ==> forall|q: int| r < q <= e ==> !mode_ok(s, r, e, q))
            &&& (m != -1 ==> r < m <= e && mode_ok(s, r, e, m) && (forall|q: int|
                m < q <= e ==> !mode_ok(s, r, e, q)))
        }),
{
    lemma_best_mode_from(s, r, e, e);
}

/// The rightmost admissible position is pinned by its two properties.
pub proof fn lemma_best_mode_is(s: Seq<u8>, r: int, k: int, e: int, m0: int)
    requires
        r < m0 <= k,
        mode_ok(s, r, e, m0),
        forall|q: int| m0 < q <= k ==> !mode_ok(s, r, e, q),
    ensures
        best_mode_from(s, r, k, e) == m0,
    decreases k - r,
{
    if k > m0 {
        lemma_best_mode_is(s, r, k - 1, e, m0);
    }
}

/// The length of the mode token at `m` (5 for `light`, else 4 for `dark`).
pub open spec fn mode_len_at(s: Seq<u8>, m: int) -> int {
    if token_at(s, m, light_seq()) {
        5
    } else {
        4
    }
}

/// What `mode_ok` pins down about the token at an admissible position.
pub proof fn lemma_mode_at(s: Seq<u8>, r: int, e: int, m: int)
    requires
        mode_ok(s, r, e, m),
    ensures
        token_at(s, m, light_seq()) || token_at(s, m, dark_seq()),
        !(token_at(s, m, light_seq()) && token_at(s, m, dark_seq())),
        m + mode_len_at(s, m) < e,
        token_at(s, m, mode_seq(if mode_len_at(s, m) == 5 {
            SunState::Up
        } else {
            SunState::Down
        })),
{
    if token_at(s, m, light_seq()) && token_at(s, m, dark_seq()) {
        assert(s.subrange(m, m + 5)[0] == s[m]);
        assert(s.subrange(m, m + 4)[0] == s[m]);
    }
}

/// A theme-reference match starts at `i`: the anchor prefix, then a word run
/// holding an admissible mode token.
pub open spec fn anchor_match_at(s: Seq<u8>, i: int) -> bool {
    token_at(s, i, anchor_seq()) && best_mode(s, i + 9, run_end(s, i + 9)) >= 0
}

/// The leftmost theme-reference match at or after `i`, or -1.
pub open spec fn first_anchor_from(s: Seq<u8>, i: int) -> int
    decreases s.len() - i,
{
    if i < 0 || i + 9 > s.len() {
        -1
    } else if anchor_match_at(s, i) {
        i
    } else {
        first_anchor_from(s, i + 1)
    }
}

pub proof fn lemma_first_anchor(s: Seq<u8>, i: int)
    requires
        0 <= i,
    ensures
        ({
            let f = first_anchor_from(s, i);
            f >= 0 ==> i <= f && f + 9 <= s.len() && anchor_match_at(s, f)
        }),
    decreases s.len() - i,
{
    if i + 9 <= s.len() && !anchor_match_at(s, i) {
        lemma_first_anchor(s, i + 1);
    }
}

/// A line holds a theme-reference match somewhere.
pub open spec fn line_matches(s: Seq<u8>) -> bool {
    first_anchor_from(s, 0) >= 0
}

/// The rewrite of one line. A line with no match is kept byte-for-byte. In a
/// matching line, the matched part is re-emitted as the anchor prefix, the
/// untouched identifier prefix, the target state's mode token, and the
/// untouched identifier suffix; what the match does not cover (text before
/// the anchor, text after the word run) is dropped, as the re-synthesis of
/// the matched line covers the whole emitted line.
pub open spec fn rewrite_line_spec(s: Seq<u8>, state: SunState) -> Seq<u8> {
    if !line_matches(s) {
        s
    } else {
        let i = first_anchor_from(s, 0);
        let r = i + 9;
        let e = run_end(s, r);
        let m = best_mode(s, r, e);
        anchor_seq() + s.subrange(r, m) + mode_seq(state) + s.subrange(m + mode_len_at(s, m), e)
    }
}

/// Finds the end of the word run that starts at `r`.
fn find_run_end(v: &Vec<u8>, r: usize) -> (e: usize)
    requires
        r <= v.len(),
    ensures
        e == run_end(v@, r as int),
        r <= e <= v.len(),
{
    let mut j: usize = r;
    while j < v.len()
        invariant
            r <= j <= v.len(),
            run_end(v@, r as int) == run_end(v@, j as int),
        decreases v.len() - j,
    {
        if !word_byte(v[j]) {
            return j;
        }
        assert(run_end(v@, j as int) == run_end(v@, j + 1));
        j += 1;
    }
    j
}

/// Finds the rightmost admissible mode position of the run `[r, e)`.
fn find_best_mode(v: &Vec<u8>, r: usize, e: usize) -> (m: Option<usize>)
    requires
        r <= e <= v.len(),
    ensures
        m is Some ==> m->0 == best_mode(v@, r as int, e as int),
        m is None ==> best_mode(v@, r as int, e as int) == -1,
{
    let light = mode_token(SunState::Up);
    let dark = mode_token(SunState::Down);
    let mut k: usize = e;
    while k > r
        invariant
            r <= k <= e <= v.len(),
            light@ == light_seq(),
            dark@ == dark_seq(),
            best_mode(v@, r as int, e as int) == best_mode_from(v@, r as int, k as int, e as int),
        decreases k,
    {
        let okl = has_token_at(v, k, &light) && e - k > 5;
        let okd = has_token_at(v, k, &dark) && e - k > 4;
        if okl || okd {
            assert(mode_ok(v@, r as int, e as int, k as int));
            return Some(k);
        }
        assert(!mode_ok(v@, r as int, e as int, k as int));
        assert(best_mode_from(v@, r as int, k as int, e as int) == best_mode_from(
            v@,
            r as int,
            k - 1,
            e as int,
        ));
        k -= 1;
    }
    None
}

/// Finds the leftmost theme-reference match of a line.
fn find_anchor(v: &Vec<u8>) -> (f: Option<usize>)
    ensures
        f is Some ==> f->0 == first_anchor_from(v@, 0) && f->0 + 9 <= v.len(),
        f is None ==> first_anchor_from(v@, 0) == -1,
{
    let anchor = anchor_token();
    if v.len() < 9 {
        return None;
    }
    let mut i: usize = 0;
    while i <= v.len() - 9
        invariant
            9 <= v.len(),
            i <= v.len() - 9 + 1,
            anchor@ == anchor_seq(),
            first_anchor_from(v@, 0) == first_anchor_from(v@, i as int),
        decreases v.len() - i,
    {
        if has_token_at(v, i, &anchor) {
            let e = find_run_end(v, i + 9);
            match find_best_mode(v, i + 9, e) {
                Option::Some(_) => {
                    assert(anchor_match_at(v@, i as int));
                    assert(first_anchor_from(v@, i as int) == i);
                    return Some(i);
                },
                Option::None => {
                    assert(!anchor_match_at(v@, i as int));
                },
            }
        } else {
            assert(!anchor_match_at(v@, i as int));
        }
        assert(first_anchor_from(v@, i as int) == first_anchor_from(v@, i + 1));
        i += 1;
    }
    assert(first_anchor_from(v@, i as int) == -1);
    None
}

/// Rewrites one line of the config document to the target state, as
/// `rewrite_line_spec` states.
pub fn rewrite_line(line: &Vec<u8>, state: SunState) -> (out: Vec<u8>)
    ensures
        out@ == rewrite_line_spec(line@, state),
{
    match find_anchor(line) {
        Option::None => {
            let mut out: Vec<u8> = Vec::new();
            let mut j: usize = 0;
            while j < line.len()
                invariant
                    j <= line.len(),
                    out@ == line@.take(j as int),
                decreases line.len() - j,
            {
                out.push(line[j]);
                assert(out@ =~= line@.take(j + 1));
                j += 1;
            }
            assert(out@ =~= line@);
            out
        },
        Option::Some(i) => {
            proof {
                lemma_first_anchor(line@, 0);
            }
            let r = i + 9;
            let e = find_run_end(line, r);
            proof {
                lemma_run_end(line@, r as int);
                lemma_best_mode(line@, r as int, e as int);
            }
            let m = match find_best_mode(line, r, e) {
                Option::Some(m) => m,
                Option::None => {
                    proof {
                        assert(false);
                    }
                    0
                },
            };
            proof {
                lemma_mode_at(line@, r as int, e as int, m as int);
            }
            let light = mode_token(SunState::Up);
            let ml: usize = if has_token_at(line, m, &light) {
                5
            } else {
                4
            };
            assert(ml == mode_len_at(line@, m as int));
            assert(m + ml < e);
            let mut out = anchor_token();
            let mut j: usize = r;
            while j < m
                invariant
                    r <= j <= m <= line.len(),
                    out@ == anchor_seq() + line@.subrange(r as int, j as int),
                decreases m - j,
            {
                out.push(line[j]);
                assert(out@ =~= anchor_seq() + line@.subrange(r as int, j + 1));
                j += 1;
            }
            let mut mt = mode_token(state);
            out.append(&mut mt);
            let mut j2: usize = m + ml;
            while j2 < e
                invariant
                    m + ml <= j2 <= e <= line.len(),
                    r <= m,
                    out@ == anchor_seq() + line@.subrange(r as int, m as int) + mode_seq(state)
                        + line@.subrange(m + ml, j2 as int),
                decreases e - j2,
            {
                out.push(line[j2]);
                assert(out@ =~= anchor_seq() + line@.subrange(r as int, m as int) + mode_seq(state)
                    + line@.subrange(m + ml, j2 + 1));
                j2 += 1;
            }
            out
        },
    }
}

/// The lines of a document: pieces between newlines, without the empty piece
/// a trailing newline leaves behind.
pub open spec fn split_lines(s: Seq<u8>) -> Seq<Seq<u8>> {
    let p = split_at_sep(s, NL);
    if p.last().len() == 0 {
        p.drop_last()
    } else {
        p
    }
}

/// Every line rewritten to the target state.
pub open spec fn rewrite_all(ls: Seq<Seq<u8>>, state: SunState) -> Seq<Seq<u8>> {
    ls.map_values(|l: Seq<u8>| rewrite_line_spec(l, state))
}

/// Lines joined by single newlines, with no trailing newline.
pub open spec fn join_nl(ls: Seq<Seq<u8>>) -> Seq<u8>
    decreases ls.len(),
{
    if ls.len() == 0 {
        Seq::empty()
    } else if ls.len() == 1 {
        ls[0]
    } else {
        ls[0] + seq![NL] + join_nl(ls.drop_first())
    }
}

/// The rewrite of a whole document: every line rewritten, the lines joined by
/// newlines, and one trailing newline added.
pub open spec fn rewrite_doc_spec(s: Seq<u8>, state: SunState) -> Seq<u8> {
    join_nl(rewrite_all(split_lines(s), state)) + seq![NL]
}

/// Each line followed by one newline: how the document is emitted.
pub open spec fn emit(ls: Seq<Seq<u8>>) -> Seq<u8>
    decreases ls.len(),
{
    if ls.len() == 0 {
        Seq::empty()
    } else {
        ls[0] + seq![NL] + emit(ls.drop_first())
    }
}

pub proof fn lemma_emit_join(ls: Seq<Seq<u8>>)
    requires
        ls.len() >= 1,
    ensures
        emit(ls) =~= join_nl(ls) + seq![NL],
    decreases ls.len(),
{
    if ls.len() == 1 {
        assert(emit(ls.drop_first()) =~= Seq::<u8>::empty());
    } else {
        lemma_emit_join(ls.drop_first());
    }
}

pub proof fn lemma_emit_snoc(ls: Seq<Seq<u8>>, x: Seq<u8>)
    ensures
        emit(ls.push(x)) =~= emit(ls) + x + seq![NL],
    decreases ls.len(),
{
    if ls.len() == 0 {
        assert(ls.push(x)[0] == x);
        assert(ls.push(x).drop_first() =~= Seq::<Seq<u8>>::empty());
        assert(emit(Seq::<Seq<u8>>::empty()) =~= Seq::<u8>::empty());
        assert(emit(ls.push(x)) =~= x + seq![NL]);
    } else {
        lemma_emit_snoc(ls.drop_first(), x);
        assert(ls.push(x).drop_first() =~= ls.drop_first().push(x));
        assert(ls.push(x)[0] == ls[0]);
    }
}

/// Splitting a joined document recovers the lines (plus the empty piece of
/// the trailing newline), provided no line holds a newline itself.
pub proof fn lemma_split_join(ls: Seq<Seq<u8>>)
    requires
        ls.len() >= 1,
        forall|i: int| 0 <= i < ls.len() ==> !has_byte(#[trigger] ls[i], NL),
    ensures
        split_at_sep(join_nl(ls) + seq![NL], NL) =~~= ls + seq![Seq::<u8>::empty()],
    decreases ls.len(),
{
    if ls.len() == 1 {
        assert(join_nl(ls) + seq![NL] =~= ls[0] + seq![NL] + Seq::<u8>::empty());
        lemma_split_concat(ls[0], Seq::empty(), NL);
        assert(split_at_sep(Seq::<u8>::empty(), NL) == seq![Seq::<u8>::empty()]);
        assert(seq![ls[0]] + seq![Seq::<u8>::empty()] =~~= ls + seq![Seq::<u8>::empty()]);
    } else {
        assert(forall|i: int|
            0 <= i < ls.drop_first().len() ==> !has_byte(#[trigger] ls.drop_first()[i], NL));
        lemma_split_join(ls.drop_first());
        assert(join_nl(ls) + seq![NL] =~= ls[0] + seq![NL] + (join_nl(ls.drop_first())
            + seq![NL]));
        lemma_split_concat(ls[0], join_nl(ls.drop_first()) + seq![NL], NL);
        assert(seq![ls[0]] + (ls.drop_first() + seq![Seq::<u8>::empty()]) =~~= ls + seq![
            Seq::<u8>::empty(),
        ]);
    }
}

/// A rewritten line holds no newline if the line held none: the emitted match
/// consists of the anchor prefix and word bytes only.
pub proof fn lemma_rewrite_line_no_nl(l: Seq<u8>, state: SunState)
    requires
        !has_byte(l, NL),
    ensures
        !has_byte(rewrite_line_spec(l, state), NL),
{
    if line_matches(l) {
        lemma_first_anchor(l, 0);
        let i = first_anchor_from(l, 0);
        let r = i + 9;
        lemma_run_end(l, r);
        let e = run_end(l, r);
        lemma_best_mode(l, r, e);
        let m = best_mode(l, r, e);
        lemma_mode_at(l, r, e, m);
        let ml = mode_len_at(l, m);
        let t = mode_seq(state);
        let p = l.subrange(r, m);
        let q = l.subrange(m + ml, e);
        let out = anchor_seq() + p + t + q;
        assert(out == rewrite_line_spec(l, state));
        assert(!has_byte(out, NL)) by {
            if has_byte(out, NL) {
                let j = choose|j: int| 0 <= j < out.len() && out[j] == NL;
                let pl = p.len() as int;
                let tl = t.len() as int;
                if j < 9 {
                    assert(out[j] == anchor_seq()[j]);
                    assert(forall|k: int| 0 <= k < 9 ==> anchor_seq()[k] != NL);
                } else if j < 9 + pl {
                    assert(out[j] == p[j - 9]);
                    assert(p[j - 9] == l[r + (j - 9)]);
                } else if j < 9 + pl + tl {
                    assert(out[j] == t[j - 9 - pl]);
                    assert(forall|k: int| 0 <= k < 5 ==> light_seq()[k] != NL);
                    assert(forall|k: int| 0 <= k < 4 ==> dark_seq()[k] != NL);
                } else {
                    assert(out[j] == q[j - 9 - pl - tl]);
                    assert(q[j - 9 - pl - tl] == l[m + ml + (j - 9 - pl - tl)]);
                }
            }
        }
    }
}

/// Law: rewriting one line is idempotent.
pub proof fn lemma_rewrite_line_idempotent(l: Seq<u8>, state: SunState)
    ensures
        rewrite_line_spec(rewrite_line_spec(l, state), state) == rewrite_line_spec(l, state),
{
    if line_matches(l) {
        lemma_first_anchor(l, 0);
        let i = first_anchor_from(l, 0);
        let r = i + 9;
        lemma_run_end(l, r);
        let e = run_end(l, r);
        lemma_best_mode(l, r, e);
        let m = best_mode(l, r, e);
        lemma_mode_at(l, r, e, m);
        let ml = mode_len_at(l, m);
        let t = mode_seq(state);
        let tl = t.len() as int;
        let p = l.subrange(r, m);
        let q = l.subrange(m + ml, e);
        let pl = p.len() as int;
        let ql = q.len() as int;
        let out = anchor_seq() + p + t + q;
        let e2 = 9 + pl + tl + ql;
        assert(out == rewrite_line_spec(l, state));
        assert(out.len() == e2);
        assert(pl >= 1 && ql >= 1);
        assert(t == light_seq() || t == dark_seq());
        // the anchor prefix reappears at the start
        assert(out.subrange(0, 9) =~= anchor_seq());
        assert(token_at(out, 0, anchor_seq()));
        // everything after it is one word run to the very end
        assert(forall|k: int| 0 <= k < 5 ==> is_word_byte(#[trigger] light_seq()[k]));
        assert(forall|k: int| 0 <= k < 4 ==> is_word_byte(#[trigger] dark_seq()[k]));
        assert forall|j: int| 9 <= j < e2 implies is_word_byte(out[j]) by {
            if j < 9 + pl {
                assert(out[j] == p[j - 9]);
                assert(p[j - 9] == l[r + (j - 9)]);
            } else if j < 9 + pl + tl {
                assert(out[j] == t[j - 9 - pl]);
            } else {
                assert(out[j] == q[j - 9 - pl - tl]);
                assert(q[j - 9 - pl - tl] == l[m + ml + (j - 9 - pl - tl)]);
            }
        }
        lemma_run_end_all_word(out, 9);
        // the fresh mode token is admissible where it was put
        assert(out.subrange(9 + pl, 9 + pl + tl) =~= t);
        assert(token_at(out, 9 + pl, t));
        assert(mode_ok(out, 9, e2, 9 + pl));
        // and nothing admissible sits to its right
        assert forall|k: int| 9 + pl < k <= e2 implies !mode_ok(out, 9, e2, k) by {
            if mode_ok(out, 9, e2, k) {
                lemma_mode_at(out, 9, e2, k);
                let w = mode_len_at(out, k);
                let tok = mode_seq(
                    if w == 5 {
                        SunState::Up
                    } else {
                        SunState::Down
                    },
                );
                assert(token_at(out, k, tok));
                assert(out.subrange(k, k + w)[0] == out[k]);
                assert(out[k] == tok[0]);
                assert(tok[0] == 108 || tok[0] == 100);
                if k < 9 + pl + tl {
                    // a token cannot start strictly inside the fresh one
                    assert(out[k] == t[k - 9 - pl]);
                    assert(forall|x: int| 1 <= x < 5 ==> light_seq()[x] != 108 && (
                    #[trigger] light_seq()[x]) != 100);
                    assert(forall|x: int| 1 <= x < 4 ==> dark_seq()[x] != 108 && (
                    #[trigger] dark_seq()[x]) != 100);
                } else {
                    // a token in the suffix would have been admissible before
                    let a = m + ml + (k - 9 - pl - tl);
                    assert forall|x: int| 0 <= x < w implies out[k + x] == #[trigger] l[a + x] by {
                        assert(out[k + x] == q[k + x - 9 - pl - tl]);
                        assert(q[k + x - 9 - pl - tl] == l[m + ml + (k + x - 9 - pl - tl)]);
                    }
                    assert(out.subrange(k, k + w) =~= l.subrange(a, a + w));
                    assert(token_at(l, a, tok));
                    assert(a + w < e);
                    assert(mode_ok(l, r, e, a));
                    assert(a > m);
                }
            }
        }
        lemma_best_mode_is(out, 9, e2, e2, 9 + pl);
        assert(best_mode(out, 9, e2) == 9 + pl);
        // so the second pass matches at the very start
        assert(anchor_match_at(out, 0));
        assert(first_anchor_from(out, 0) == 0);
        assert(line_matches(out));
        // with the same token length
        if state == SunState::Up {
            assert(token_at(out, 9 + pl, light_seq()));
            assert(mode_len_at(out, 9 + pl) == 5);
        } else {
            assert(!token_at(out, 9 + pl, light_seq())) by {
                if token_at(out, 9 + pl, light_seq()) {
                    assert(out.subrange(9 + pl, 9 + pl + 5)[0] == out[9 + pl]);
                    assert(out[9 + pl] == t[0]);
                }
            }
            assert(mode_len_at(out, 9 + pl) == 4);
        }
        // and rebuilds the same line
        assert(out.subrange(9, 9 + pl) =~= p);
        assert(out.subrange(9 + pl + tl, e2) =~= q);
        assert(rewrite_line_spec(out, state) =~= out);
    }
}

/// A nonempty document has at least one line.
pub proof fn lemma_split_lines_nonempty(s: Seq<u8>)
    requires
        s.len() >= 1,
    ensures
        split_lines(s).len() >= 1,
{
    lemma_split_len(s, NL);
    if s.last() == NL {
        lemma_split_len(s.drop_last(), NL);
    }
}

/// The split of a rewritten document recovers exactly the rewritten lines.
pub proof fn lemma_doc_lines(s: Seq<u8>, state: SunState)
    requires
        split_lines(s).len() >= 1,
    ensures
        split_lines(rewrite_doc_spec(s, state)) == rewrite_all(split_lines(s), state),
{
    let ls = split_lines(s);
    let ls2 = rewrite_all(ls, state);
    assert(ls2.len() == ls.len());
    lemma_split_pieces_free(s, NL);
    assert forall|i: int| 0 <= i < ls2.len() implies !has_byte(#[trigger] ls2[i], NL) by {
        assert(ls[i] == split_at_sep(s, NL)[i]);
        assert(!has_byte(ls[i], NL));
        lemma_rewrite_line_no_nl(ls[i], state);
        assert(ls2[i] == rewrite_line_spec(ls[i], state));
    }
    lemma_split_join(ls2);
    let doc = rewrite_doc_spec(s, state);
    assert(doc == join_nl(ls2) + seq![NL]);
    assert(split_at_sep(doc, NL) =~~= ls2 + seq![Seq::<u8>::empty()]);
    assert(split_at_sep(doc, NL).last().len() == 0);
    assert(split_lines(doc) =~~= ls2);
}

/// Law: for a document with N lines of which K match the theme-reference
/// pattern, the rewrite keeps the line count N and keeps each of the N−K
/// non-matching lines byte-for-byte.
pub proof fn lemma_rewrite_preserves_lines(s: Seq<u8>, state: SunState)
    requires
        s.len() >= 1,
    ensures
        split_lines(rewrite_doc_spec(s, state)).len() == split_lines(s).len(),
        forall|i: int|
            0 <= i < split_lines(s).len() && !line_matches(#[trigger] split_lines(s)[i])
                ==> split_lines(rewrite_doc_spec(s, state))[i] == split_lines(s)[i],
{
    lemma_split_lines_nonempty(s);
    lemma_doc_lines(s, state);
    let ls = split_lines(s);
    assert forall|i: int|
        0 <= i < ls.len() && !line_matches(#[trigger] ls[i]) implies split_lines(
        rewrite_doc_spec(s, state),
    )[i] == ls[i] by {
        assert(rewrite_all(ls, state)[i] == rewrite_line_spec(ls[i], state));
    }
}

/// Law: rewriting a document twice with the same target state yields the same
/// output as rewriting it once.
pub proof fn lemma_rewrite_idempotent(s: Seq<u8>, state: SunState)
    ensures
        rewrite_doc_spec(rewrite_doc_spec(s, state), state) == rewrite_doc_spec(s, state),
{
    let ls = split_lines(s);
    let ls2 = rewrite_all(ls, state);
    if ls.len() == 0 {
        let doc = rewrite_doc_spec(s, state);
        assert(doc =~= seq![NL]);
        assert(seq![NL].last() == NL);
        assert(seq![NL].drop_last() =~= Seq::<u8>::empty());
        assert(split_at_sep(Seq::<u8>::empty(), NL) == seq![Seq::<u8>::empty()]);
        assert(split_at_sep(seq![NL], NL) =~~= seq![Seq::<u8>::empty(), Seq::<u8>::empty()]);
        assert(split_lines(doc) =~~= seq![Seq::<u8>::empty()]);
        assert(rewrite_line_spec(Seq::<u8>::empty(), state) == Seq::<u8>::empty());
        assert(rewrite_all(split_lines(doc), state) =~~= seq![Seq::<u8>::empty()]);
        assert(join_nl(seq![Seq::<u8>::empty()]) =~= Seq::<u8>::empty());
        assert(rewrite_doc_spec(doc, state) =~= doc);
    } else {
        lemma_doc_lines(s, state);
        let doc = rewrite_doc_spec(s, state);
        assert(split_lines(doc) == ls2);
        assert forall|i: int| 0 <= i < ls2.len() implies rewrite_all(ls2, state)[i] == ls2[i] by {
            assert(ls2[i] == rewrite_line_spec(ls[i], state));
            lemma_rewrite_line_idempotent(ls[i], state);
        }
        assert(rewrite_all(ls2, state) =~~= ls2);
        assert(rewrite_doc_spec(doc, state) == join_nl(ls2) + seq![NL]);
    }
}

/// Rewrites a whole config document to the target state: lines split at
/// newlines, each rewritten, all joined back with one trailing newline.
pub fn rewrite_document(text: &Vec<u8>, state: SunState) -> (out: Vec<u8>)
    ensures
        out@ == rewrite_doc_spec(text@, state),
{
    let ghost ls = split_lines(text@);
    let ghost ls2 = rewrite_all(ls, state);
    let mut parts = split_bytes(text, NL);
    proof {
        lemma_split_len(text@, NL);
    }
    if parts[parts.len() - 1].len() == 0 {
        let _dropped = parts.pop();
    }
    assert(parts@.len() == ls.len());
    assert(forall|i: int| 0 <= i < parts@.len() ==> parts@[i]@ == ls[i]);
    let mut out: Vec<u8> = Vec::new();
    if parts.len() == 0 {
        out.push(NL);
        proof {
            assert(ls2.len() == 0);
            assert(out@ =~= rewrite_doc_spec(text@, state));
        }
        return out;
    }
    let mut idx: usize = 0;
    while idx < parts.len()
        invariant
            parts@.len() == ls.len(),
            ls2 == rewrite_all(ls, state),
            forall|i: int| 0 <= i < parts@.len() ==> parts@[i]@ == ls[i],
            idx <= parts@.len(),
            out@ == emit(ls2.take(idx as int)),
        decreases parts@.len() - idx,
    {
        let mut piece = rewrite_line(&parts[idx], state);
        assert(piece@ == ls2[idx as int]);
        out.append(&mut piece);
        out.push(NL);
        proof {
            lemma_emit_snoc(ls2.take(idx as int), ls2[idx as int]);
            assert(ls2.take(idx + 1) =~= ls2.take(idx as int).push(ls2[idx as int]));
        }
        idx += 1;
    }
    proof {
        assert(ls2.take(ls2.len() as int) =~= ls2);
        lemma_emit_join(ls2);
    }
    out
}

} // verus!
