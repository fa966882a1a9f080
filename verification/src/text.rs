//! Character-sequence utilities: the lexicographic order that Rust uses to
//! compare strings, whitespace trimming, splitting on commas, and substring
//! search, together with executable forms proved against them.

use vstd::prelude::*;

verus! {

use vstd::string::StrSliceExecFns;

// ----- lexicographic order -----

/// Strict lexicographic order on character sequences by Unicode scalar
/// value. Rust's `Ord` on `str` compares UTF-8 bytes, which agrees with
/// code-point order, so this is the order of `str::lt` as well.
pub open spec fn lex_lt(a: Seq<char>, b: Seq<char>) -> bool
    decreases a.len(),
{
    if b.len() == 0 {
        false
    } else if a.len() == 0 {
        true
    } else if a[0] != b[0] {
        (a[0] as int) < (b[0] as int)
    } else {
        lex_lt(a.drop_first(), b.drop_first())
    }
}

pub proof fn lemma_lex_lt_irreflexive(a: Seq<char>)
    ensures
        !lex_lt(a, a),
    decreases a.len(),
{
    if a.len() > 0 {
        lemma_lex_lt_irreflexive(a.drop_first());
    }
}

pub proof fn lemma_lex_lt_asymmetric(a: Seq<char>, b: Seq<char>)
    ensures
        !(lex_lt(a, b) && lex_lt(b, a)),
    decreases a.len(),
{
    if a.len() > 0 && b.len() > 0 && a[0] == b[0] {
        lemma_lex_lt_asymmetric(a.drop_first(), b.drop_first());
    }
}

/// Two sequences neither of which is below the other are equal.
pub proof fn lemma_lex_lt_connected(a: Seq<char>, b: Seq<char>)
    ensures
        lex_lt(a, b) || lex_lt(b, a) || a == b,
    decreases a.len(),
{
    if a.len() == 0 && b.len() == 0 {
        assert(a =~= b);
    } else if a.len() > 0 && b.len() > 0 && a[0] != b[0] {
        assert((a[0] as int) != (b[0] as int));
    } else if a.len() > 0 && b.len() > 0 && a[0] == b[0] {
        lemma_lex_lt_connected(a.drop_first(), b.drop_first());
        if !lex_lt(a, b) && !lex_lt(b, a) {
            assert(a.drop_first() == b.drop_first());
            assert forall|i: int| 0 <= i < a.len() implies a[i] == b[i] by {
                if i > 0 {
                    assert(a.drop_first()[i - 1] == b.drop_first()[i - 1]);
                }
            }
            assert(a =~= b);
        }
    }
}

pub proof fn lemma_lex_lt_transitive(a: Seq<char>, b: Seq<char>, c: Seq<char>)
    ensures
        lex_lt(a, b) && lex_lt(b, c) ==> lex_lt(a, c),
    decreases a.len(),
{
    if lex_lt(a, b) && lex_lt(b, c) {
        if a.len() > 0 && b.len() > 0 && c.len() > 0 {
            if a[0] == b[0] && b[0] == c[0] {
                lemma_lex_lt_transitive(a.drop_first(), b.drop_first(), c.drop_first());
            }
        }
    }
}

/// Executable form of `lex_lt` on string slices.
pub fn str_lex_lt(a: &str, b: &str) -> (r: bool)
    ensures
        r == lex_lt(a@, b@),
{
    let alen: usize = a.unicode_len();
    let blen: usize = b.unicode_len();
    let mut i: usize = 0;
    proof {
        assert(a@.skip(0) =~= a@);
        assert(b@.skip(0) =~= b@);
    }
    while i < alen && i < blen
        invariant
            alen == a@.len(),
            blen == b@.len(),
            i <= alen,
            i <= blen,
            lex_lt(a@, b@) == lex_lt(a@.skip(i as int), b@.skip(i as int)),
        decreases alen - i,
    {
        let ca = a.get_char(i);
        let cb = b.get_char(i);
        if ca != cb {
            proof {
                assert(a@.skip(i as int)[0] == a@[i as int]);
                assert(b@.skip(i as int)[0] == b@[i as int]);
            }
            return (ca as u32) < (cb as u32);
        }
        proof {
            assert(a@.skip(i as int)[0] == a@[i as int]);
            assert(b@.skip(i as int)[0] == b@[i as int]);
            assert(a@.skip(i as int).drop_first() =~= a@.skip(i + 1));
            assert(b@.skip(i as int).drop_first() =~= b@.skip(i + 1));
        }
        i = i + 1;
    }
    proof {
        if i >= alen {
            assert(a@.skip(i as int).len() == 0);
        }
        if i >= blen {
            assert(b@.skip(i as int).len() == 0);
        }
    }
    alen < blen
}

// ----- whitespace and trimming -----

/// The Unicode `White_Space` characters: exactly the set that `str::trim`
/// removes at either end of a string.
pub open spec fn is_ws_char(c: char) -> bool {
    (0x09 <= c as u32 && c as u32 <= 0x0D) || c as u32 == 0x20 || c as u32 == 0x85 || c as u32
        == 0xA0 || c as u32 == 0x1680 || (0x2000 <= c as u32 && c as u32 <= 0x200A) || c as u32
        == 0x2028 || c as u32 == 0x2029 || c as u32 == 0x202F || c as u32 == 0x205F || c as u32
        == 0x3000
}

pub fn is_whitespace_char(c: char) -> (r: bool)
    ensures
        r == is_ws_char(c),
{
    let u = c as u32;
    (0x09 <= u && u <= 0x0D) || u == 0x20 || u == 0x85 || u == 0xA0 || u == 0x1680 || (0x2000 <= u
        && u <= 0x200A) || u == 0x2028 || u == 0x2029 || u == 0x202F || u == 0x205F || u == 0x3000
}

pub open spec fn trim_start_spec(s: Seq<char>) -> Seq<char>
    decreases s.len(),
{
    if s.len() > 0 && is_ws_char(s.first()) {
        trim_start_spec(s.drop_first())
    } else {
        s
    }
}

pub open spec fn trim_end_spec(s: Seq<char>) -> Seq<char>
    decreases s.len(),
{
    if s.len() > 0 && is_ws_char(s.last()) {
        trim_end_spec(s.drop_last())
    } else {
        s
    }
}

/// What `str::trim` returns: the sequence with leading and trailing
/// whitespace removed.
pub open spec fn trim_spec(s: Seq<char>) -> Seq<char> {
    trim_end_spec(trim_start_spec(s))
}

/// Executable trim, proved against `trim_spec`.
pub fn trim_str(s: &str) -> (r: String)
    ensures
        r@ == trim_spec(s@),
{
    let len: usize = s.unicode_len();
    let mut start: usize = 0;
    proof {
        assert(s@.skip(0) =~= s@);
    }
    while start < len && is_whitespace_char(s.get_char(start))
        invariant
            len == s@.len(),
            start <= len,
            trim_start_spec(s@) == trim_start_spec(s@.skip(start as int)),
        decreases len - start,
    {
        proof {
            assert(s@.skip(start as int).first() == s@[start as int]);
            assert(s@.skip(start as int).drop_first() =~= s@.skip(start + 1));
        }
        start = start + 1;
    }
    proof {
        if start >= len {
            assert(s@.skip(start as int).len() == 0);
        }
        assert(trim_start_spec(s@) == s@.skip(start as int));
    }
    let ghost t = s@.skip(start as int);
    let mut end: usize = len;
    proof {
        assert(t.take(len - start) =~= t);
    }
    while end > start && is_whitespace_char(s.get_char(end - 1))
        invariant
            len == s@.len(),
            start <= end <= len,
            t == s@.skip(start as int),
            trim_end_spec(t) == trim_end_spec(t.take(end - start)),
        decreases end,
    {
        proof {
            assert(t.take(end - start).last() == t[end - start - 1]);
            assert(t[end - start - 1] == s@[end - 1]);
            assert(t.take(end - start).drop_last() =~= t.take(end - 1 - start));
        }
        end = end - 1;
    }
    proof {
        if end > start {
            assert(t.take(end - start).last() == t[end - start - 1]);
            assert(t[end - start - 1] == s@[end - 1]);
        }
        assert(trim_end_spec(t) == t.take(end - start));
        assert(t.take(end - start) =~= s@.subrange(start as int, end as int));
    }
    let piece: &str = s.substring_char(start, end);
    piece.to_owned()
}

// ----- splitting on commas -----

/// What splitting a sequence on `,` yields, defined from the right: an
/// empty sequence has one empty piece, a trailing comma opens a new empty
/// piece, and any other character extends the last piece.
pub open spec fn split_commas(s: Seq<char>) -> Seq<Seq<char>>
    decreases s.len(),
{
    if s.len() == 0 {
        seq![Seq::<char>::empty()]
    } else if s.last() == ',' {
        split_commas(s.drop_last()).push(Seq::<char>::empty())
    } else {
        let prev = split_commas(s.drop_last());
        prev.update(prev.len() - 1, prev.last().push(s.last()))
    }
}

/// Executable split on `,`, proved against `split_commas`.
pub fn split_commas_str(s: &str) -> (r: Vec<String>)
    ensures
        r@.map_values(|t: String| t@) == split_commas(s@),
{
    let len: usize = s.unicode_len();
    let mut done: Vec<String> = Vec::new();
    let mut cur: String = String::new();
    let mut i: usize = 0;
    while i < len
        invariant
            len == s@.len(),
            i <= len,
            done@.map_values(|t: String| t@).push(cur@) == split_commas(s@.take(i as int)),
        decreases len - i,
    {
        let c = s.get_char(i);
        proof {
            assert(s@.take(i + 1).drop_last() =~= s@.take(i as int));
            assert(s@.take(i + 1).last() == s@[i as int]);
        }
        if c == ',' {
            done.push(cur);
            cur = String::new();
            proof {
                assert(done@.map_values(|t: String| t@).push(cur@) =~= split_commas(
                    s@.take(i + 1),
                ));
            }
        } else {
            push_char(&mut cur, c);
            proof {
                let prev = split_commas(s@.take(i as int));
                assert(prev.last() == prev[prev.len() - 1]);
                assert(done@.map_values(|t: String| t@).push(cur@) =~= prev.update(
                    prev.len() - 1,
                    prev.last().push(c),
                ));
            }
        }
        i = i + 1;
    }
    proof {
        assert(s@.take(len as int) =~= s@);
    }
    done.push(cur);
    proof {
        assert(done@.map_values(|t: String| t@) =~= split_commas(s@));
    }
    done
}

// ----- substring search -----

/// `needle` occurs in `hay` as a contiguous run of characters. An empty
/// needle occurs in everything.
pub open spec fn is_substring(needle: Seq<char>, hay: Seq<char>) -> bool {
    exists|i: int|
        0 <= i && i + needle.len() <= hay.len() && #[trigger] hay.subrange(i, i + needle.len())
            == needle
}

fn match_at(hay: &str, needle: &str, i: usize) -> (r: bool)
    requires
        i + needle@.len() <= hay@.len(),
    ensures
        r == (hay@.subrange(i as int, i + needle@.len()) == needle@),
{
    let hlen: usize = hay.unicode_len();
    let nlen: usize = needle.unicode_len();
    let mut j: usize = 0;
    while j < nlen
        invariant
            hlen == hay@.len(),
            nlen == needle@.len(),
            i + nlen <= hlen,
            j <= nlen,
            forall|t: int| 0 <= t < j ==> hay@[i + t] == needle@[t],
        decreases nlen - j,
    {
        let ch = hay.get_char(i + j);
        let cn = needle.get_char(j);
        if ch != cn {
            proof {
                assert(hay@.subrange(i as int, i + needle@.len())[j as int] == hay@[i + j]);
            }
            return false;
        }
        j = j + 1;
    }
    proof {
        assert(hay@.subrange(i as int, i + needle@.len()) =~= needle@);
    }
    true
}

/// Executable substring test, proved against `is_substring`.
pub fn str_contains_sub(hay: &str, needle: &str) -> (r: bool)
    ensures
        r == is_substring(needle@, hay@),
{
    let hlen: usize = hay.unicode_len();
    let nlen: usize = needle.unicode_len();
    if nlen > hlen {
        return false;
    }
    if nlen == 0 {
        proof {
            assert(hay@.subrange(0, 0 + needle@.len() as int) =~= needle@);
        }
        return true;
    }
    let mut i: usize = 0;
    while i <= hlen - nlen
        invariant
            hlen == hay@.len(),
            nlen == needle@.len(),
            1 <= nlen <= hlen,
            i <= hlen - nlen + 1,
            forall|k: int| 0 <= k < i ==> #[trigger] hay@.subrange(k, k + needle@.len())
                != needle@,
        decreases hlen + 1 - i,
    {
        if match_at(hay, needle, i) {
            return true;
        }
        i = i + 1;
    }
    false
}

// ----- trusted bridges to std string routines -----

/// The result of `str::to_lowercase`: a pure function of the characters.
pub uninterp spec fn lower_of(s: Seq<char>) -> Seq<char>;

/// Relies on `str::to_lowercase`: the lowercase equivalent of the input,
/// determined by the input characters alone.
#[verifier::external_body]
pub fn lowercase(s: &str) -> (r: String)
    ensures
        r@ == lower_of(s@),
{
    s.to_lowercase()
}

/// Relies on `String::push`: appends the given character at the end.
#[verifier::external_body]
pub fn push_char(s: &mut String, c: char)
    ensures
        final(s)@ == old(s)@.push(c),
{
    s.push(c);
}

/// Relies on `String::pop`: removes and returns the last character, or
/// returns `None` and leaves the string unchanged when it is empty.
#[verifier::external_body]
pub fn pop_char(s: &mut String) -> (r: Option<char>)
    ensures
        old(s)@.len() == 0 ==> final(s)@ == old(s)@ && r is None,
        old(s)@.len() > 0 ==> final(s)@ == old(s)@.drop_last() && r == Some(old(s)@.last()),
{
    s.pop()
}

} // verus!
