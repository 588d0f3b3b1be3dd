use vstd::prelude::*;

verus! {

/// The line separator byte (`'\n'`).
pub const NL: u8 = 10;

/// Word bytes: ASCII letters, digits, and the underscore. These are the bytes
/// that may appear in a theme-anchor identifier.
pub open spec fn is_word_byte(b: u8) -> bool {
    b == 95u8 || (48 <= b && b <= 57) || (65 <= b && b <= 90) || (97 <= b && b <= 122)
}

/// Decides `is_word_byte`.
pub fn word_byte(b: u8) -> (r: bool)
    ensures
        r == is_word_byte(b),
{
    b == 95u8 || (48 <= b && b <= 57) || (65 <= b && b <= 90) || (97 <= b && b <= 122)
}

/// The token `t` occurs in `s` starting at index `i`.
pub open spec fn token_at(s: Seq<u8>, i: int, t: Seq<u8>) -> bool {
    0 <= i && i + t.len() <= s.len() && s.subrange(i, i + t.len() as int) == t
}

/// Decides `token_at`.
pub fn has_token_at(v: &Vec<u8>, i: usize, t: &Vec<u8>) -> (r: bool)
    ensures
        r == token_at(v@, i as int, t@),
{
    if v.len() < i || v.len() - i < t.len() {
        return false;
    }
    let mut j: usize = 0;
    while j < t.len()
        invariant
            i + t.len() <= v.len(),
            j <= t.len(),
            forall|k: int| 0 <= k < j ==> v@[i + k] == t@[k],
        decreases t.len() - j,
    {
        if v[i + j] != t[j] {
            assert(!token_at(v@, i as int, t@)) by {
                if token_at(v@, i as int, t@) {
                    assert(v@.subrange(i as int, i + t@.len() as int)[j as int] == v@[i + j]);
                }
            }
            return false;
        }
        j += 1;
    }
    assert(v@.subrange(i as int, i + t@.len() as int) =~= t@);
    true
}

/// The byte `b` occurs somewhere in `s`.
pub open spec fn has_byte(s: Seq<u8>, b: u8) -> bool {
    exists|i: int| 0 <= i < s.len() && s[i] == b
}

/// Splits `s` at every occurrence of `sep`. The result always has one more
/// piece than `s` has separators; no piece contains `sep`.
pub open spec fn split_at_sep(s: Seq<u8>, sep: u8) -> Seq<Seq<u8>>
    decreases s.len(),
{
    if s.len() == 0 {
        seq![Seq::<u8>::empty()]
    } else if s.last() == sep {
        split_at_sep(s.drop_last(), sep) + seq![Seq::<u8>::empty()]
    } else {
        let rest = split_at_sep(s.drop_last(), sep);
        rest.drop_last() + seq![rest.last() + seq![s.last()]]
    }
}

pub proof fn lemma_split_len(s: Seq<u8>, sep: u8)
    ensures
        split_at_sep(s, sep).len() >= 1,
    decreases s.len(),
{
    if s.len() > 0 {
        lemma_split_len(s.drop_last(), sep);
    }
}

/// No piece of a split contains the separator.
pub proof fn lemma_split_pieces_free(s: Seq<u8>, sep: u8)
    ensures
        forall|i: int|
            0 <= i < split_at_sep(s, sep).len() ==> !has_byte(
                #[trigger] split_at_sep(s, sep)[i],
                sep,
            ),
    decreases s.len(),
{
    let sp = split_at_sep(s, sep);
    if s.len() == 0 {
        assert forall|i: int| 0 <= i < sp.len() implies !has_byte(#[trigger] sp[i], sep) by {
            assert(sp[i].len() == 0);
        }
    } else {
        lemma_split_pieces_free(s.drop_last(), sep);
        lemma_split_len(s.drop_last(), sep);
        let rest = split_at_sep(s.drop_last(), sep);
        if s.last() == sep {
            assert forall|i: int| 0 <= i < sp.len() implies !has_byte(#[trigger] sp[i], sep) by {
                if i < rest.len() {
                    assert(sp[i] == rest[i]);
                } else {
                    assert(sp[i].len() == 0);
                }
            }
        } else {
            assert forall|i: int| 0 <= i < sp.len() implies !has_byte(#[trigger] sp[i], sep) by {
                if i < rest.len() - 1 {
                    assert(sp[i] == rest[i]);
                } else {
                    assert(sp[i] == rest.last() + seq![s.last()]);
                    assert(!has_byte(rest[rest.len() - 1], sep));
                    if has_byte(sp[i], sep) {
                        let j = choose|j: int| 0 <= j < sp[i].len() && sp[i][j] == sep;
                        if j < rest.last().len() {
                            assert(rest.last()[j] == sep);
                        } else {
                            assert(s.last() == sep);
                        }
                    }
                }
            }
        }
    }
}

/// A separator-free sequence splits into a single piece: itself.
pub proof fn lemma_split_single(s: Seq<u8>, sep: u8)
    requires
        !has_byte(s, sep),
    ensures
        split_at_sep(s, sep) =~~= seq![s],
    decreases s.len(),
{
    if s.len() == 0 {
        assert(split_at_sep(s, sep)[0] =~= s);
    } else {
        assert(s.last() != sep);
        assert(!has_byte(s.drop_last(), sep)) by {
            if has_byte(s.drop_last(), sep) {
                let j = choose|j: int| 0 <= j < s.drop_last().len() && s.drop_last()[j] == sep;
                assert(s[j] == sep);
            }
        }
        lemma_split_single(s.drop_last(), sep);
        assert(s.drop_last() + seq![s.last()] =~= s);
    }
}

/// A separator after a separator-free prefix cuts the split in two.
pub proof fn lemma_split_concat(a: Seq<u8>, z: Seq<u8>, sep: u8)
    requires
        !has_byte(a, sep),
    ensures
        split_at_sep(a + seq![sep] + z, sep) =~~= seq![a] + split_at_sep(z, sep),
    decreases z.len(),
{
    if z.len() == 0 {
        let sx = a + seq![sep] + z;
        assert(sx =~= a + seq![sep]);
        assert(sx.last() == sep);
        assert(sx.drop_last() =~= a);
        lemma_split_single(a, sep);
        assert(split_at_sep(z, sep) =~= seq![Seq::<u8>::empty()]);
    } else {
        let sx = a + seq![sep] + z;
        assert(sx.last() == z.last());
        assert(sx.drop_last() =~= a + seq![sep] + z.drop_last());
        lemma_split_concat(a, z.drop_last(), sep);
        lemma_split_len(z.drop_last(), sep);
        let rz = split_at_sep(z.drop_last(), sep);
        if z.last() == sep {
            assert(split_at_sep(sx, sep) =~~= (seq![a] + rz) + seq![Seq::<u8>::empty()]);
        } else {
            assert((seq![a] + rz).last() == rz.last());
            assert((seq![a] + rz).drop_last() =~= seq![a] + rz.drop_last());
            assert(split_at_sep(sx, sep) =~~= (seq![a] + rz.drop_last()) + seq![
                rz.last() + seq![z.last()],
            ]);
        }
    }
}

/// Splits a byte vector at every occurrence of `sep`, as `split_at_sep` does.
pub fn split_bytes(v: &Vec<u8>, sep: u8) -> (parts: Vec<Vec<u8>>)
    ensures
        parts@.len() == split_at_sep(v@, sep).len(),
        forall|i: int| 0 <= i < parts@.len() ==> parts@[i]@ == split_at_sep(v@, sep)[i],
{
    let mut parts: Vec<Vec<u8>> = Vec::new();
    let mut cur: Vec<u8> = Vec::new();
    let mut j: usize = 0;
    while j < v.len()
        invariant
            j <= v.len(),
            parts@.len() + 1 == split_at_sep(v@.take(j as int), sep).len(),
            forall|i: int|
                0 <= i < parts@.len() ==> parts@[i]@ == split_at_sep(v@.take(j as int), sep)[i],
            cur@ == split_at_sep(v@.take(j as int), sep).last(),
        decreases v.len() - j,
    {
        let ghost pre = v@.take(j as int);
        let ghost prex = v@.take(j + 1);
        assert(prex.last() == v@[j as int]);
        assert(prex.drop_last() =~= pre);
        proof {
            lemma_split_len(pre, sep);
        }
        if v[j] == sep {
            assert(split_at_sep(prex, sep) == split_at_sep(pre, sep) + seq![Seq::<u8>::empty()]);
            parts.push(cur);
            cur = Vec::new();
        } else {
            assert(split_at_sep(prex, sep) == split_at_sep(pre, sep).drop_last() + seq![
                split_at_sep(pre, sep).last() + seq![v@[j as int]],
            ]);
            cur.push(v[j]);
            assert(cur@ == split_at_sep(prex, sep).last());
            assert(forall|i: int|
                0 <= i < parts@.len() ==> parts@[i]@ == split_at_sep(prex, sep)[i]);
        }
        j += 1;
    }
    assert(v@.take(v@.len() as int) =~= v@);
    parts.push(cur);
    parts
}

} // verus!
