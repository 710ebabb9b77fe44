//! Byte-sequence primitives shared by the header codec and matcher: ASCII
//! whitespace trimming, separator splitting, placeholder replacement and
//! decimal rendering, each with an exact `Seq<u8>` specification.

use vstd::prelude::*;

verus! {

/// ASCII whitespace: space and the control characters tab through carriage
/// return, the byte-level counterpart of `char::is_whitespace` for ASCII text.
pub open spec fn is_space(b: u8) -> bool {
    b == 32 || (9 <= b && b <= 13)
}

/// `s` with its trailing ASCII whitespace removed.
pub open spec fn trim_end_spec(s: Seq<u8>) -> Seq<u8>
    decreases s.len(),
{
    if s.len() > 0 && is_space(s[s.len() - 1]) {
        trim_end_spec(s.drop_last())
    } else {
        s
    }
}

/// `s` with its leading ASCII whitespace removed.
pub open spec fn trim_start_spec(s: Seq<u8>) -> Seq<u8>
    decreases s.len(),
{
    if s.len() > 0 && is_space(s[0]) {
        trim_start_spec(s.skip(1))
    } else {
        s
    }
}

/// `s` with ASCII whitespace removed from both ends.
pub open spec fn trim_spec(s: Seq<u8>) -> Seq<u8> {
    trim_start_spec(trim_end_spec(s))
}

/// Every byte of `s` is ASCII whitespace; true of the empty sequence.
pub open spec fn all_space(s: Seq<u8>) -> bool {
    forall|i: int| 0 <= i < s.len() ==> is_space(s[i])
}

/// The pieces of `s` between occurrences of the separator byte, in order.
/// There is always at least one piece; a separator at either end or two in a
/// row yield empty pieces, as `str::split` does.
pub open spec fn split_spec(s: Seq<u8>, sep: u8) -> Seq<Seq<u8>>
    decreases s.len(),
{
    if s.len() == 0 {
        seq![Seq::<u8>::empty()]
    } else if s[0] == sep {
        seq![Seq::<u8>::empty()] + split_spec(s.skip(1), sep)
    } else {
        let rest = split_spec(s.skip(1), sep);
        seq![seq![s[0]] + rest[0]] + rest.skip(1)
    }
}

pub proof fn lemma_split_nonempty(s: Seq<u8>, sep: u8)
    ensures
        split_spec(s, sep).len() >= 1,
    decreases s.len(),
{
    if s.len() != 0 && s[0] != sep {
        lemma_split_nonempty(s.skip(1), sep);
    }
}

/// `s` with every non-overlapping occurrence of `pat`, found left to right,
/// replaced by `rep`.  An empty pattern never matches anything.
pub open spec fn replace_spec(s: Seq<u8>, pat: Seq<u8>, rep: Seq<u8>) -> Seq<u8>
    decreases s.len(),
{
    if pat.len() == 0 || s.len() < pat.len() {
        s
    } else if s.take(pat.len() as int) == pat {
        rep + replace_spec(s.skip(pat.len() as int), pat, rep)
    } else {
        seq![s[0]] + replace_spec(s.skip(1), pat, rep)
    }
}

/// The decimal digits of `n`, most significant first, with no leading zeros.
pub open spec fn dec_spec(n: nat) -> Seq<u8>
    decreases n,
{
    if n < 10 {
        seq![(48 + n) as u8]
    } else {
        dec_spec(n / 10).push((48 + n % 10) as u8)
    }
}

/// The views of a sequence of byte vectors.
pub open spec fn seqs_view(v: Seq<Vec<u8>>) -> Seq<Seq<u8>> {
    Seq::new(v.len(), |i: int| v[i]@)
}

pub broadcast proof fn lemma_seqs_view_len(v: Seq<Vec<u8>>)
    ensures
        #[trigger] seqs_view(v).len() == v.len(),
{
}

pub broadcast proof fn lemma_seqs_view_push(v: Seq<Vec<u8>>, x: Vec<u8>)
    ensures
        #[trigger] seqs_view(v.push(x)) =~= seqs_view(v).push(x@),
{
    lemma_seqs_view_len(v);
    lemma_seqs_view_len(v.push(x));
}

/// Whether every byte of `s` is ASCII whitespace.
pub fn all_space_bytes(s: &Vec<u8>) -> (r: bool)
    ensures
        r == all_space(s@),
{
    let mut i: usize = 0;
    while i < s.len()
        invariant
            i <= s.len(),
            forall|j: int| 0 <= j < i ==> is_space(s@[j]),
        decreases s.len() - i,
    {
        if !is_space_byte(s[i]) {
            return false;
        }
        i = i + 1;
    }
    true
}

/// Executable counterpart of `is_space`.
pub fn is_space_byte(b: u8) -> (r: bool)
    ensures
        r == is_space(b),
{
    b == 32 || (9 <= b && b <= 13)
}

/// Appends all of `src` to `dst`.
pub fn push_all(dst: &mut Vec<u8>, src: &Vec<u8>)
    ensures
        final(dst)@ == old(dst)@ + src@,
{
    let mut i: usize = 0;
    while i < src.len()
        invariant
            i <= src.len(),
            dst@ =~= old(dst)@ + src@.take(i as int),
        decreases src.len() - i,
    {
        dst.push(src[i]);
        i = i + 1;
    }
    proof {
        assert(dst@ =~= old(dst)@ + src@);
    }
}

/// Appends `src[from..to]` to `dst`.
pub fn push_range(dst: &mut Vec<u8>, src: &Vec<u8>, from: usize, to: usize)
    requires
        from <= to <= src@.len(),
    ensures
        final(dst)@ == old(dst)@ + src@.subrange(from as int, to as int),
{
    let mut i: usize = from;
    while i < to
        invariant
            from <= i <= to <= src@.len(),
            dst@ =~= old(dst)@ + src@.subrange(from as int, i as int),
        decreases to - i,
    {
        dst.push(src[i]);
        i = i + 1;
    }
    proof {
        assert(dst@ =~= old(dst)@ + src@.subrange(from as int, to as int));
    }
}

/// A fresh vector holding the same bytes as `src`.
pub fn copy_bytes(src: &Vec<u8>) -> (r: Vec<u8>)
    ensures
        r@ == src@,
{
    let mut r: Vec<u8> = Vec::new();
    push_all(&mut r, src);
    proof {
        assert(r@ =~= src@);
    }
    r
}

/// Whether the two vectors hold the same bytes.
pub fn bytes_eq(a: &Vec<u8>, b: &Vec<u8>) -> (r: bool)
    ensures
        r == (a@ == b@),
{
    if a.len() != b.len() {
        proof {
            assert(a@ != b@);
        }
        return false;
    }
    let mut i: usize = 0;
    while i < a.len()
        invariant
            i <= a.len(),
            a@.len() == b@.len(),
            forall|j: int| 0 <= j < i ==> a@[j] == b@[j],
        decreases a.len() - i,
    {
        if a[i] != b[i] {
            return false;
        }
        i = i + 1;
    }
    proof {
        assert(a@ =~= b@);
    }
    true
}

/// Executable counterpart of `trim_end_spec`.
pub fn trim_end_bytes(s: &Vec<u8>) -> (r: Vec<u8>)
    ensures
        r@ == trim_end_spec(s@),
{
    let mut end: usize = s.len();
    proof {
        assert(s@.take(s@.len() as int) =~= s@);
    }
    while end > 0 && is_space_byte(s[end - 1])
        invariant
            end <= s.len(),
            trim_end_spec(s@) == trim_end_spec(s@.take(end as int)),
        decreases end,
    {
        proof {
            assert(s@.take(end as int).drop_last() =~= s@.take(end - 1));
        }
        end = end - 1;
    }
    proof {
        assert(trim_end_spec(s@) == s@.take(end as int));
    }
    let mut r: Vec<u8> = Vec::new();
    push_range(&mut r, s, 0, end);
    proof {
        assert(r@ =~= s@.take(end as int));
    }
    r
}

/// Executable counterpart of `trim_spec`.
pub fn trim_bytes(s: &Vec<u8>) -> (r: Vec<u8>)
    ensures
        r@ == trim_spec(s@),
{
    let mut end: usize = s.len();
    proof {
        assert(s@.take(s@.len() as int) =~= s@);
    }
    while end > 0 && is_space_byte(s[end - 1])
        invariant
            end <= s.len(),
            trim_end_spec(s@) == trim_end_spec(s@.take(end as int)),
        decreases end,
    {
        proof {
            assert(s@.take(end as int).drop_last() =~= s@.take(end - 1));
        }
        end = end - 1;
    }
    proof {
        assert(trim_end_spec(s@) == s@.take(end as int));
    }
    let ghost t = s@.take(end as int);
    proof {
        assert(t.skip(0) =~= t);
    }
    let mut start: usize = 0;
    while start < end && is_space_byte(s[start])
        invariant
            start <= end <= s.len(),
            t == s@.take(end as int),
            trim_start_spec(t) == trim_start_spec(t.skip(start as int)),
        decreases end - start,
    {
        proof {
            assert(t.skip(start as int)[0] == s@[start as int]);
            assert(t.skip(start as int).skip(1) =~= t.skip(start + 1));
        }
        start = start + 1;
    }
    proof {
        assert(trim_start_spec(t) == t.skip(start as int));
    }
    let mut r: Vec<u8> = Vec::new();
    let mut i: usize = start;
    while i < end
        invariant
            start <= i <= end <= s.len(),
            r@ =~= s@.subrange(start as int, i as int),
        decreases end - i,
    {
        r.push(s[i]);
        i = i + 1;
    }
    proof {
        assert(r@ =~= t.skip(start as int));
    }
    r
}

/// First piece of `pieces` extended on the left with `x`; the rest unchanged.
pub open spec fn prepend_first(x: Seq<u8>, pieces: Seq<Seq<u8>>) -> Seq<Seq<u8>> {
    seq![x + pieces[0]] + pieces.skip(1)
}

/// Executable counterpart of `split_spec`.
pub fn split_bytes(s: &Vec<u8>, sep: u8) -> (r: Vec<Vec<u8>>)
    ensures
        seqs_view(r@) == split_spec(s@, sep),
{
    let mut done: Vec<Vec<u8>> = Vec::new();
    let mut cur: Vec<u8> = Vec::new();
    let mut i: usize = 0;
    proof {
        lemma_split_nonempty(s@, sep);
        assert(s@.skip(0) =~= s@);
        assert(split_spec(s@, sep) =~= seqs_view(done@) + prepend_first(cur@, split_spec(s@.skip(0), sep)));
    }
    while i < s.len()
        invariant
            i <= s.len(),
            split_spec(s@, sep) == seqs_view(done@) + prepend_first(
                cur@,
                split_spec(s@.skip(i as int), sep),
            ),
        decreases s.len() - i,
    {
        let ghost rem = s@.skip(i as int);
        proof {
            assert(rem[0] == s@[i as int]);
            assert(rem.skip(1) =~= s@.skip(i + 1));
            lemma_split_nonempty(s@.skip(i + 1), sep);
        }
        let c = s[i];
        if c == sep {
            let ghost rest = split_spec(s@.skip(i + 1), sep);
            proof {
                assert(split_spec(rem, sep) == seq![Seq::<u8>::empty()] + rest);
                assert(prepend_first(cur@, split_spec(rem, sep)) =~= seq![cur@] + rest);
            }
            done.push(cur);
            cur = Vec::new();
            proof {
                assert(seqs_view(done@) =~= seqs_view(done@.drop_last()).push(done@.last()@));
                assert(split_spec(s@, sep) =~= seqs_view(done@) + prepend_first(
                    cur@,
                    split_spec(s@.skip(i + 1), sep),
                ));
            }
        } else {
            let ghost rest = split_spec(s@.skip(i + 1), sep);
            proof {
                assert(split_spec(rem, sep) == seq![seq![rem[0]] + rest[0]] + rest.skip(1));
                assert((cur@.push(c)) + rest[0] =~= cur@ + (seq![rem[0]] + rest[0]));
                assert(prepend_first(cur@, split_spec(rem, sep)) =~= prepend_first(
                    cur@.push(c),
                    rest,
                ));
            }
            cur.push(c);
        }
        i = i + 1;
    }
    proof {
        assert(s@.skip(s@.len() as int) =~= Seq::<u8>::empty());
        assert(split_spec(s@.skip(s@.len() as int), sep) == seq![Seq::<u8>::empty()]);
        assert(prepend_first(cur@, seq![Seq::<u8>::empty()]) =~= seq![cur@]);
    }
    done.push(cur);
    proof {
        assert(seqs_view(done@) =~= seqs_view(done@.drop_last()).push(done@.last()@));
        assert(seqs_view(done@) =~= split_spec(s@, sep));
    }
    done
}

/// Whether `pat` occurs in `s` at position `i`.
fn matches_at(s: &Vec<u8>, i: usize, pat: &Vec<u8>) -> (r: bool)
    requires
        i <= s@.len(),
    ensures
        r == (i + pat@.len() <= s@.len() && s@.subrange(i as int, i + pat@.len()) == pat@),
{
    if pat.len() > s.len() - i {
        return false;
    }
    let mut j: usize = 0;
    while j < pat.len()
        invariant
            j <= pat.len(),
            i + pat.len() <= s.len(),
            forall|k: int| 0 <= k < j ==> s@[i + k] == pat@[k],
        decreases pat.len() - j,
    {
        if s[i + j] != pat[j] {
            proof {
                assert(s@.subrange(i as int, i + pat@.len())[j as int] != pat@[j as int]);
            }
            return false;
        }
        j = j + 1;
    }
    proof {
        assert(s@.subrange(i as int, i + pat@.len()) =~= pat@);
    }
    true
}

/// Executable counterpart of `replace_spec`.
pub fn replace_bytes(s: &Vec<u8>, pat: &Vec<u8>, rep: &Vec<u8>) -> (r: Vec<u8>)
    ensures
        r@ == replace_spec(s@, pat@, rep@),
{
    if pat.len() == 0 {
        return copy_bytes(s);
    }
    let mut out: Vec<u8> = Vec::new();
    let mut i: usize = 0;
    proof {
        assert(s@.skip(0) =~= s@);
    }
    while i < s.len()
        invariant
            i <= s.len(),
            pat@.len() >= 1,
            replace_spec(s@, pat@, rep@) == out@ + replace_spec(s@.skip(i as int), pat@, rep@),
        decreases s.len() - i,
    {
        let ghost rem = s@.skip(i as int);
        if matches_at(s, i, pat) {
            proof {
                assert(rem.take(pat@.len() as int) =~= s@.subrange(i as int, i + pat@.len()));
                assert(rem.skip(pat@.len() as int) =~= s@.skip(i + pat@.len()));
                assert(replace_spec(rem, pat@, rep@) == rep@ + replace_spec(
                    s@.skip(i + pat@.len()),
                    pat@,
                    rep@,
                ));
            }
            push_all(&mut out, rep);
            i = i + pat.len();
        } else {
            proof {
                if rem.len() >= pat@.len() {
                    assert(rem.take(pat@.len() as int) =~= s@.subrange(i as int, i + pat@.len()));
                }
                assert(rem[0] == s@[i as int]);
                assert(rem.skip(1) =~= s@.skip(i + 1));
                assert(replace_spec(rem, pat@, rep@) == seq![s@[i as int]] + replace_spec(
                    s@.skip(i + 1),
                    pat@,
                    rep@,
                ));
            }
            out.push(s[i]);
            i = i + 1;
        }
    }
    proof {
        assert(s@.skip(s@.len() as int) =~= Seq::<u8>::empty());
        assert(replace_spec(Seq::<u8>::empty(), pat@, rep@) =~= Seq::<u8>::empty());
        assert(replace_spec(s@, pat@, rep@) =~= out@);
    }
    out
}

/// Appends the decimal rendering of `n` to `out`.
pub fn push_dec(out: &mut Vec<u8>, n: u32)
    ensures
        final(out)@ == old(out)@ + dec_spec(n as nat),
    decreases n,
{
    if n < 10 {
        out.push(48 + (n as u8));
        proof {
            assert(out@ =~= old(out)@ + dec_spec(n as nat));
        }
    } else {
        push_dec(out, n / 10);
        out.push(48 + ((n % 10) as u8));
        proof {
            assert(out@ =~= old(out)@ + dec_spec(n as nat));
        }
    }
}

/// The decimal rendering of `n`, most significant digit first.
pub fn dec_bytes(n: u32) -> (r: Vec<u8>)
    ensures
        r@ == dec_spec(n as nat),
{
    let mut r: Vec<u8> = Vec::new();
    push_dec(&mut r, n);
    proof {
        assert(r@ =~= dec_spec(n as nat));
    }
    r
}

} // verus!
