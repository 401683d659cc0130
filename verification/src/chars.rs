//! Character-sequence utilities shared by the text and CSV codecs: moving
//! between strings, bytes and character vectors, trimming, splitting on a
//! delimiter, and the quoting of description fields.

use vstd::prelude::*;
use vstd::string::StrSliceExecFns;
use vstd::utf8::decode_utf8;
use vstd::utf8::valid_utf8;

verus! {

/// Characters stripped from the ends of a line: blank, horizontal tab,
/// carriage return and line feed.
pub open spec fn is_space_char(c: char) -> bool {
    c == ' ' || c == '\t' || c == '\r' || c == '\n'
}

/// Holds when `c` is an uppercase ASCII letter, the only characters the
/// textual enum tags are made of.
pub open spec fn is_upper_char(c: char) -> bool {
    65 <= c as u32 <= 90
}

/// Decides [`is_space_char`].
pub fn is_space(c: char) -> (r: bool)
    ensures
        r == is_space_char(c),
{
    c == ' ' || c == '\t' || c == '\r' || c == '\n'
}

/// Relies on `String::push`: appends the given character to the end of the
/// string.
#[verifier::external_body]
pub fn push_char(s: &mut String, c: char)
    ensures
        final(s)@ == old(s)@.push(c),
{
    s.push(c);
}

/// Relies on `String::from_utf8`: succeeds exactly on valid UTF-8 input and
/// returns the string made of the characters those bytes encode.
#[verifier::external_body]
pub fn string_from_utf8(bytes: Vec<u8>) -> (r: Option<String>)
    ensures
        r is Some <==> valid_utf8(bytes@),
        r matches Some(s) ==> s@ == decode_utf8(bytes@),
{
    match String::from_utf8(bytes) {
        Ok(s) => Some(s),
        Err(_) => None,
    }
}

/// Collects the characters of `s` into a vector.
pub fn str_to_chars(s: &str) -> (v: Vec<char>)
    ensures
        v@ == s@,
{
    let n = s.unicode_len();
    let mut v: Vec<char> = Vec::new();
    let mut i: usize = 0;
    while i < n
        invariant
            0 <= i <= n,
            n == s@.len(),
            v@ == s@.take(i as int),
        decreases n - i,
    {
        v.push(s.get_char(i));
        proof {
            assert(s@.take(i as int + 1) =~= s@.take(i as int).push(s@[i as int]));
        }
        i = i + 1;
    }
    proof {
        assert(s@.take(n as int) =~= s@);
    }
    v
}

/// Builds the string holding exactly the characters of `v`.
pub fn chars_to_string(v: &Vec<char>) -> (s: String)
    ensures
        s@ == v@,
{
    let mut s = String::new();
    let mut i: usize = 0;
    while i < v.len()
        invariant
            0 <= i <= v@.len(),
            s@ == v@.take(i as int),
        decreases v@.len() - i,
    {
        push_char(&mut s, v[i]);
        proof {
            assert(v@.take(i as int + 1) =~= v@.take(i as int).push(v@[i as int]));
        }
        i = i + 1;
    }
    proof {
        assert(v@.take(v@.len() as int) =~= v@);
    }
    s
}

/// Decides whether the characters of `v` are exactly those of `s`.
pub fn chars_eq_str(v: &Vec<char>, s: &str) -> (r: bool)
    ensures
        r == (v@ == s@),
{
    let n = s.unicode_len();
    if v.len() != n {
        return false;
    }
    let mut i: usize = 0;
    while i < n
        invariant
            0 <= i <= n,
            n == s@.len() == v@.len(),
            forall|k: int| 0 <= k < i ==> v@[k] == s@[k],
        decreases n - i,
    {
        if v[i] != s.get_char(i) {
            return false;
        }
        i = i + 1;
    }
    proof {
        assert(v@ =~= s@);
    }
    true
}

/// What is left of `s` after dropping leading space characters.
pub open spec fn trim_front(s: Seq<char>) -> Seq<char>
    decreases s.len(),
{
    if s.len() > 0 && is_space_char(s[0]) {
        trim_front(s.drop_first())
    } else {
        s
    }
}

/// What is left of `s` after dropping trailing space characters.
pub open spec fn trim_back(s: Seq<char>) -> Seq<char>
    decreases s.len(),
{
    if s.len() > 0 && is_space_char(s.last()) {
        trim_back(s.drop_last())
    } else {
        s
    }
}

/// What is left of `s` after dropping space characters at both ends.
pub open spec fn trim_spec(s: Seq<char>) -> Seq<char> {
    trim_back(trim_front(s))
}

/// A sequence that neither starts nor ends with a space character is its own
/// trim.
pub proof fn lemma_trim_clean(s: Seq<char>)
    requires
        s.len() == 0 || (!is_space_char(s[0]) && !is_space_char(s.last())),
    ensures
        trim_spec(s) == s,
{
}

/// Dropping leading spaces one at a time reaches `trim_front`.
proof fn lemma_trim_front_skip(s: Seq<char>, lo: int)
    requires
        0 <= lo <= s.len(),
        forall|k: int| 0 <= k < lo ==> is_space_char(s[k]),
    ensures
        trim_front(s) == trim_front(s.skip(lo)),
    decreases lo,
{
    if lo > 0 {
        assert(is_space_char(s[0]));
        assert(s.drop_first() =~= s.skip(1));
        lemma_trim_front_skip(s.skip(1), lo - 1);
        assert(s.skip(1).skip(lo - 1) =~= s.skip(lo));
    } else {
        assert(s.skip(0) =~= s);
    }
}

/// Dropping trailing spaces one at a time reaches `trim_back`.
proof fn lemma_trim_back_take(s: Seq<char>, hi: int)
    requires
        0 <= hi <= s.len(),
        forall|k: int| hi <= k < s.len() ==> is_space_char(s[k]),
    ensures
        trim_back(s) == trim_back(s.take(hi)),
    decreases s.len() - hi,
{
    if hi < s.len() {
        assert(is_space_char(s.last()));
        assert(s.drop_last() =~= s.take(s.len() - 1));
        lemma_trim_back_take(s.take(s.len() - 1), hi);
        assert(s.take(s.len() - 1).take(hi) =~= s.take(hi));
    } else {
        assert(s.take(hi) =~= s);
    }
}

/// Strips space characters from both ends of `v`.
pub fn trim_chars(v: &Vec<char>) -> (r: Vec<char>)
    ensures
        r@ == trim_spec(v@),
{
    let n = v.len();
    let mut lo: usize = 0;
    while lo < n && is_space(v[lo])
        invariant
            0 <= lo <= n,
            n == v@.len(),
            forall|k: int| 0 <= k < lo ==> is_space_char(v@[k]),
        decreases n - lo,
    {
        lo = lo + 1;
    }
    proof {
        lemma_trim_front_skip(v@, lo as int);
        if lo < n {
            assert(v@.skip(lo as int)[0] == v@[lo as int]);
            assert(trim_front(v@.skip(lo as int)) == v@.skip(lo as int));
        } else {
            assert(v@.skip(lo as int) =~= Seq::<char>::empty());
            assert(trim_front(v@) =~= Seq::<char>::empty());
        }
    }
    let mut hi: usize = n;
    while hi > lo && is_space(v[hi - 1])
        invariant
            lo <= hi <= n,
            n == v@.len(),
            forall|k: int| hi <= k < n ==> is_space_char(v@[k]),
        decreases hi,
    {
        hi = hi - 1;
    }
    let ghost t = v@.skip(lo as int);
    proof {
        // After the scans, the trimmed value is exactly v[lo .. hi].
        assert(forall|k: int| hi - lo <= k < t.len() ==> is_space_char(#[trigger] t[k]));
        lemma_trim_back_take(t, hi - lo);
        assert(t.take(hi - lo) =~= v@.subrange(lo as int, hi as int));
        if hi > lo {
            assert(v@.subrange(lo as int, hi as int).last() == v@[hi - 1]);
            assert(trim_back(v@.subrange(lo as int, hi as int)) == v@.subrange(
                lo as int,
                hi as int,
            ));
        } else {
            assert(v@.subrange(lo as int, hi as int) =~= Seq::<char>::empty());
            assert(trim_back(v@.subrange(lo as int, hi as int)) =~= Seq::<char>::empty());
        }
    }
    let mut r: Vec<char> = Vec::new();
    let mut i: usize = lo;
    while i < hi
        invariant
            lo <= i <= hi <= n,
            n == v@.len(),
            r@ == v@.subrange(lo as int, i as int),
        decreases hi - i,
    {
        r.push(v[i]);
        proof {
            assert(v@.subrange(lo as int, i as int + 1) =~= v@.subrange(
                lo as int,
                i as int,
            ).push(v@[i as int]));
        }
        i = i + 1;
    }
    proof {
        assert(trim_spec(v@) == v@.subrange(lo as int, hi as int));
    }
    r
}

/// Every piece of `ls`, trimmed.
pub open spec fn trim_all_spec(ls: Seq<Seq<char>>) -> Seq<Seq<char>> {
    ls.map_values(|l: Seq<char>| trim_spec(l))
}

/// Trims every piece of `parts`.
pub fn trim_all(parts: &Vec<Vec<char>>) -> (r: Vec<Vec<char>>)
    ensures
        r.deep_view() == trim_all_spec(parts.deep_view()),
{
    let mut r: Vec<Vec<char>> = Vec::new();
    proof {
        assert(r.deep_view() =~~= trim_all_spec(parts.deep_view().take(0)));
    }
    let mut j: usize = 0;
    while j < parts.len()
        invariant
            0 <= j <= parts@.len(),
            parts.deep_view().len() == parts@.len(),
            r.deep_view() == trim_all_spec(parts.deep_view().take(j as int)),
        decreases parts@.len() - j,
    {
        let t = trim_chars(&parts[j]);
        proof {
            assert(parts.deep_view()[j as int] == parts@[j as int]@);
        }
        let ghost before = r.deep_view();
        r.push(t);
        proof {
            assert(r.deep_view() =~~= before.push(trim_spec(parts.deep_view()[j as int])));
            assert(trim_all_spec(parts.deep_view().take(j as int + 1)) =~~= before.push(
                trim_spec(parts.deep_view()[j as int]),
            ));
        }
        j = j + 1;
    }
    proof {
        assert(parts.deep_view().take(parts.deep_view().len() as int) =~= parts.deep_view());
    }
    r
}

/// The pieces of `s` between occurrences of the delimiter `d`: one piece
/// more than there are delimiters, in order, each piece free of `d`.
pub open spec fn split_char_spec(s: Seq<char>, d: char) -> Seq<Seq<char>>
    decreases s.len(),
{
    if s.len() == 0 {
        seq![Seq::<char>::empty()]
    } else if s.last() == d {
        split_char_spec(s.drop_last(), d).push(Seq::<char>::empty())
    } else {
        let r = split_char_spec(s.drop_last(), d);
        r.update(r.len() - 1, r.last().push(s.last()))
    }
}

/// Splitting yields at least one piece.
pub proof fn lemma_split_nonempty(s: Seq<char>, d: char)
    ensures
        split_char_spec(s, d).len() >= 1,
    decreases s.len(),
{
    if s.len() > 0 {
        lemma_split_nonempty(s.drop_last(), d);
    }
}

/// The pieces of `ls` written out with one `d` after each piece.
pub open spec fn join_term(ls: Seq<Seq<char>>, d: char) -> Seq<char>
    decreases ls.len(),
{
    if ls.len() == 0 {
        Seq::<char>::empty()
    } else {
        join_term(ls.drop_last(), d) + ls.last() + seq![d]
    }
}

/// Writing out a concatenation of piece lists concatenates their streams.
pub proof fn lemma_join_append(a: Seq<Seq<char>>, b: Seq<Seq<char>>, d: char)
    ensures
        join_term(a + b, d) == join_term(a, d) + join_term(b, d),
    decreases b.len(),
{
    if b.len() == 0 {
        assert(a + b =~= a);
        assert(join_term(b, d).len() == 0);
        assert(join_term(a, d) + join_term(b, d) =~= join_term(a, d));
    } else {
        lemma_join_append(a, b.drop_last(), d);
        assert((a + b).drop_last() =~= a + b.drop_last());
        assert((a + b).last() == b.last());
        assert(join_term(a, d) + (join_term(b.drop_last(), d) + b.last() + seq![d])
            =~= join_term(a, d) + join_term(b.drop_last(), d) + b.last() + seq![d]);
    }
}

/// Appending delimiter-free text extends the final piece of a split.
pub proof fn lemma_split_append_free(a: Seq<char>, b: Seq<char>, d: char)
    requires
        !b.contains(d),
    ensures
        ({
            let r = split_char_spec(a, d);
            split_char_spec(a + b, d) == r.update(r.len() - 1, r.last() + b)
        }),
    decreases b.len(),
{
    let r = split_char_spec(a, d);
    lemma_split_nonempty(a, d);
    if b.len() == 0 {
        assert(a + b =~= a);
        assert(r.last() + b =~= r.last());
        assert(r.update(r.len() - 1, r.last() + b) =~~= r);
    } else {
        let b0 = b.drop_last();
        assert(!b0.contains(d)) by {
            if b0.contains(d) {
                let k = choose|k: int| 0 <= k < b0.len() && b0[k] == d;
                assert(b[k] == d);
            }
        }
        lemma_split_append_free(a, b0, d);
        let r0 = split_char_spec(a + b0, d);
        assert((a + b).drop_last() =~= a + b0);
        assert((a + b).last() == b.last());
        assert(b.last() != d) by {
            assert(b[b.len() - 1] == b.last());
        }
        assert(split_char_spec(a + b, d) == r0.update(r0.len() - 1, r0.last().push(b.last())));
        assert(r0.last() == r.last() + b0);
        assert((r.last() + b0).push(b.last()) =~= r.last() + b);
        assert(r0.update(r0.len() - 1, r0.last().push(b.last())) =~~= r.update(
            r.len() - 1,
            r.last() + b,
        ));
    }
}

/// Appending one delimiter closes the final piece and opens an empty one.
proof fn lemma_split_append_delim(a: Seq<char>, d: char)
    ensures
        split_char_spec(a + seq![d], d) == split_char_spec(a, d).push(Seq::<char>::empty()),
{
    assert((a + seq![d]).last() == d);
    assert((a + seq![d]).drop_last() =~= a);
}

/// Splitting the written-out pieces recovers them, followed by the empty
/// piece after the final delimiter, provided no piece holds the delimiter.
pub proof fn lemma_split_join(ls: Seq<Seq<char>>, d: char)
    requires
        forall|i: int| 0 <= i < ls.len() ==> !(#[trigger] ls[i]).contains(d),
    ensures
        split_char_spec(join_term(ls, d), d) == ls.push(Seq::<char>::empty()),
    decreases ls.len(),
{
    if ls.len() == 0 {
        assert(join_term(ls, d).len() == 0);
        assert(split_char_spec(join_term(ls, d), d) =~~= ls.push(Seq::<char>::empty()));
    } else {
        let pre = ls.drop_last();
        assert(forall|i: int| 0 <= i < pre.len() ==> !(#[trigger] pre[i]).contains(d)) by {
            assert(forall|i: int| 0 <= i < pre.len() ==> pre[i] == ls[i]);
        }
        lemma_split_join(pre, d);
        assert(!ls.last().contains(d)) by {
            assert(ls[ls.len() - 1] == ls.last());
        }
        lemma_split_append_free(join_term(pre, d), ls.last(), d);
        let r = split_char_spec(join_term(pre, d), d);
        assert(r == pre.push(Seq::<char>::empty()));
        assert(r.last() == Seq::<char>::empty());
        assert(r.last() + ls.last() =~= ls.last());
        assert(r.update(r.len() - 1, r.last() + ls.last()) =~~= pre.push(ls.last()));
        lemma_split_append_delim(join_term(pre, d) + ls.last(), d);
        assert(join_term(ls, d) == join_term(pre, d) + ls.last() + seq![d]);
        assert(join_term(pre, d) + ls.last() + seq![d] =~= (join_term(pre, d) + ls.last())
            + seq![d]);
        assert(pre.push(ls.last()) =~~= ls);
    }
}

/// Splits `v` at every occurrence of `d`.
pub fn split_char(v: &Vec<char>, d: char) -> (parts: Vec<Vec<char>>)
    ensures
        parts.deep_view() == split_char_spec(v@, d),
{
    let mut parts: Vec<Vec<char>> = Vec::new();
    let mut cur: Vec<char> = Vec::new();
    proof {
        assert(v@.take(0) =~= Seq::<char>::empty());
        assert(parts.deep_view().push(cur@) =~~= split_char_spec(v@.take(0), d));
    }
    let mut i: usize = 0;
    while i < v.len()
        invariant
            0 <= i <= v@.len(),
            parts.deep_view().push(cur@) == split_char_spec(v@.take(i as int), d),
        decreases v@.len() - i,
    {
        let ghost pre = v@.take(i as int);
        let ghost r = split_char_spec(pre, d);
        let ghost old_parts = parts.deep_view();
        let ghost old_cur = cur@;
        proof {
            assert(v@.take(i as int + 1).drop_last() =~= pre);
            assert(v@.take(i as int + 1).last() == v@[i as int]);
        }
        if v[i] == d {
            parts.push(cur);
            cur = Vec::new();
            proof {
                assert(parts.deep_view() =~~= old_parts.push(old_cur));
                assert(split_char_spec(v@.take(i as int + 1), d) == r.push(
                    Seq::<char>::empty(),
                ));
                assert(parts.deep_view().push(cur@) =~~= r.push(Seq::<char>::empty()));
            }
        } else {
            cur.push(v[i]);
            proof {
                assert(split_char_spec(v@.take(i as int + 1), d) == r.update(
                    r.len() - 1,
                    r.last().push(v@[i as int]),
                ));
                assert(r.len() - 1 == old_parts.len());
                assert(r.last() == old_cur);
                assert(parts.deep_view().push(cur@) =~~= r.update(
                    r.len() - 1,
                    r.last().push(v@[i as int]),
                ));
            }
        }
        i = i + 1;
    }
    proof {
        assert(v@.take(v@.len() as int) =~= v@);
    }
    let ghost before = parts.deep_view();
    parts.push(cur);
    proof {
        assert(parts.deep_view() =~~= before.push(cur@));
    }
    parts
}

/// Holds when `needle` occurs as a contiguous run inside `hay`.
pub open spec fn contains_seq(hay: Seq<char>, needle: Seq<char>) -> bool {
    exists|i: int|
        0 <= i && i + needle.len() <= hay.len() && #[trigger] hay.subrange(i, i + needle.len())
            == needle
}

/// Decides whether `nd` occurs in `hay` starting at position `i`.
fn match_at(hay: &Vec<char>, nd: &Vec<char>, i: usize) -> (r: bool)
    requires
        i + nd@.len() <= hay@.len(),
    ensures
        r == (hay@.subrange(i as int, i as int + nd@.len() as int) == nd@),
{
    let hl = hay.len();
    let m = nd.len();
    let mut j: usize = 0;
    while j < m
        invariant
            0 <= j <= m,
            m == nd@.len(),
            hl == hay@.len(),
            i + m <= hay@.len(),
            forall|t: int| 0 <= t < j ==> hay@[i + t] == nd@[t],
        decreases m - j,
    {
        if hay[i + j] != nd[j] {
            proof {
                assert(hay@.subrange(i as int, i as int + m as int)[j as int] != nd@[j as int]);
            }
            return false;
        }
        j = j + 1;
    }
    proof {
        assert(hay@.subrange(i as int, i as int + m as int) =~= nd@);
    }
    true
}

/// Decides whether the characters of `needle` occur as a contiguous run
/// inside `hay`.
pub fn contains_chars(hay: &Vec<char>, needle: &str) -> (r: bool)
    ensures
        r == contains_seq(hay@, needle@),
{
    let nd = str_to_chars(needle);
    let m = nd.len();
    if m > hay.len() {
        return false;
    }
    if m == 0 {
        proof {
            assert(hay@.subrange(0, 0 + needle@.len() as int) =~= needle@);
        }
        return true;
    }
    let mut i: usize = 0;
    while i <= hay.len() - m
        invariant
            0 <= i <= hay@.len() - m + 1,
            m == nd@.len() == needle@.len(),
            1 <= m <= hay@.len(),
            nd@ == needle@,
            forall|k: int| 0 <= k < i ==> #[trigger] hay@.subrange(k, k + m as int) != needle@,
        decreases hay@.len() - m - i + 1,
    {
        if match_at(hay, &nd, i) {
            return true;
        }
        i = i + 1;
    }
    false
}

/// A quoted description field: an opening and a closing double quote around
/// text that itself holds none; the payload is that inner text.
pub open spec fn spec_unquote(s: Seq<char>) -> Option<Seq<char>> {
    if s.len() >= 2 && s[0] == '"' && s.last() == '"' && !s.subrange(1, s.len() - 1).contains('"') {
        Some(s.subrange(1, s.len() - 1))
    } else {
        None
    }
}

/// Wrapping quote-free text in double quotes round-trips through
/// [`spec_unquote`].
pub proof fn lemma_unquote_quoted(desc: Seq<char>)
    requires
        !desc.contains('"'),
    ensures
        spec_unquote(seq!['"'] + desc + seq!['"']) == Some(desc),
{
    let q = seq!['"'] + desc + seq!['"'];
    assert(q.len() == desc.len() + 2);
    assert(q[0] == '"');
    assert(q.last() == '"');
    assert(q.subrange(1, q.len() - 1) =~= desc);
}

/// Strips one layer of enclosing double quotes from `v`; fails unless the
/// quotes are there and the inner text holds none.
pub fn unquote_chars(v: &Vec<char>) -> (r: Option<Vec<char>>)
    ensures
        r.deep_view() == spec_unquote(v@),
{
    let n = v.len();
    if n < 2 {
        return None;
    }
    if v[0] != '"' || v[n - 1] != '"' {
        return None;
    }
    let mut inner: Vec<char> = Vec::new();
    let mut i: usize = 1;
    while i < n - 1
        invariant
            1 <= i <= n - 1,
            n == v@.len(),
            2 <= n,
            inner@ == v@.subrange(1, i as int),
            forall|k: int| 1 <= k < i ==> v@[k] != '"',
        decreases n - i,
    {
        if v[i] == '"' {
            proof {
                assert(v@.subrange(1, n - 1)[i - 1] == '"');
            }
            return None;
        }
        inner.push(v[i]);
        proof {
            assert(v@.subrange(1, i as int + 1) =~= v@.subrange(1, i as int).push(v@[i as int]));
        }
        i = i + 1;
    }
    proof {
        assert(inner@ == v@.subrange(1, n - 1));
        assert(forall|k: int| 0 <= k < n - 2 ==> #[trigger] v@.subrange(1, n - 1)[k] == v@[k + 1]);
        assert(!v@.subrange(1, n - 1).contains('"')) by {
            if v@.subrange(1, n - 1).contains('"') {
                let k = choose|k: int|
                    0 <= k < n - 2 && #[trigger] v@.subrange(1, n - 1)[k] == '"';
                assert(v@[k + 1] == '"');
            }
        }
    }
    Some(inner)
}

} // verus!
