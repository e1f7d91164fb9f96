//! Verified text utilities: exact-substring matching and global replacement,
//! splitting on a separator character, whitespace trimming, and decimal
//! rendering of indices. Everything is specified over `Seq<char>` views.

use vstd::prelude::*;
use vstd::string::StrSliceExecFns;
use vstd::string::StringExecFns;

verus! {

/// The pattern `pat` occurs in `s` starting at position `i`.
pub open spec fn match_at(s: Seq<char>, pat: Seq<char>, i: int) -> bool {
    &&& 0 <= i
    &&& i + pat.len() <= s.len()
    &&& s.subrange(i, i + pat.len()) == pat
}

/// The pattern `pat` occurs somewhere in `s`.
pub open spec fn occurs(s: Seq<char>, pat: Seq<char>) -> bool {
    exists|i: int| match_at(s, pat, i)
}

/// `s` with every occurrence of `pat` replaced by `rep`, scanning left to
/// right; an empty pattern leaves `s` unchanged.
pub open spec fn replace_all_spec(s: Seq<char>, pat: Seq<char>, rep: Seq<char>) -> Seq<char>
    decreases s.len(),
{
    if pat.len() == 0 || s.len() < pat.len() {
        s
    } else if s.subrange(0, pat.len() as int) == pat {
        rep + replace_all_spec(s.skip(pat.len() as int), pat, rep)
    } else {
        s.take(1) + replace_all_spec(s.skip(1), pat, rep)
    }
}

/// A match of `pat` inside the suffix `s.skip(a)` is a match inside `s`,
/// shifted by `a`, and conversely.
proof fn lemma_match_shift(s: Seq<char>, pat: Seq<char>, a: int, j: int)
    requires
        0 <= a <= s.len(),
        0 <= j,
    ensures
        match_at(s.skip(a), pat, j) <==> match_at(s, pat, a + j),
{
    if j + pat.len() <= s.len() - a {
        assert(s.skip(a).subrange(j, j + pat.len() as int) =~= s.subrange(
            a + j,
            a + j + pat.len(),
        ));
    }
}

/// Replacement passes unchanged over a prefix that holds no match: the first
/// `k` characters of `s` are copied verbatim.
pub(crate) proof fn lemma_replace_skip_clean(s: Seq<char>, pat: Seq<char>, rep: Seq<char>, k: int)
    requires
        pat.len() >= 1,
        0 <= k <= s.len(),
        forall|j: int| 0 <= j < k ==> !match_at(s, pat, j),
    ensures
        replace_all_spec(s, pat, rep) == s.take(k) + replace_all_spec(s.skip(k), pat, rep),
    decreases k,
{
    if k == 0 {
        assert(s.skip(0) =~= s);
        assert(s.take(0) + replace_all_spec(s, pat, rep) =~= replace_all_spec(s, pat, rep));
    } else if s.len() < pat.len() {
        assert(s.skip(k).len() < pat.len());
        assert(s.take(k) + s.skip(k) =~= s);
    } else {
        assert(!match_at(s, pat, 0));
        assert(s.subrange(0, pat.len() as int) != pat);
        assert forall|j: int| 0 <= j < k - 1 implies !match_at(s.skip(1), pat, j) by {
            lemma_match_shift(s, pat, 1, j);
        }
        lemma_replace_skip_clean(s.skip(1), pat, rep, k - 1);
        assert(s.skip(1).skip(k - 1) =~= s.skip(k));
        assert(s.take(1) + (s.skip(1).take(k - 1) + replace_all_spec(s.skip(k), pat, rep))
            =~= s.take(k) + replace_all_spec(s.skip(k), pat, rep));
    }
}

/// Unfolds the replacement at a match: the match is consumed and `rep` is
/// emitted in its place.
proof fn lemma_replace_at_match(s: Seq<char>, pat: Seq<char>, rep: Seq<char>)
    requires
        pat.len() >= 1,
        match_at(s, pat, 0),
    ensures
        replace_all_spec(s, pat, rep) == rep + replace_all_spec(
            s.skip(pat.len() as int),
            pat,
            rep,
        ),
{
    assert(s.subrange(0, pat.len() as int) == pat);
}

/// True exactly when `pat` occurs in `s` at position `i`.
pub fn is_match_at(s: &str, pat: &str, i: usize) -> (b: bool)
    requires
        i + pat@.len() <= s@.len() <= usize::MAX,
    ensures
        b == match_at(s@, pat@, i as int),
{
    let plen = pat.unicode_len();
    let mut j: usize = 0;
    while j < plen
        invariant
            plen == pat@.len(),
            i + plen <= s@.len() <= usize::MAX,
            0 <= j <= plen,
            forall|k: int| 0 <= k < j ==> s@[i + k] == pat@[k],
        decreases plen - j,
    {
        if s.get_char(i + j) != pat.get_char(j) {
            assert(s@.subrange(i as int, i + plen) != pat@) by {
                assert(s@.subrange(i as int, i + plen)[j as int] == s@[i + j]);
            }
            return false;
        }
        j += 1;
    }
    assert(s@.subrange(i as int, i + plen) =~= pat@);
    true
}

/// Replaces every occurrence of `pat` in `s` by `rep`, scanning left to right.
pub fn replace_all(s: &str, pat: &str, rep: &str) -> (r: String)
    ensures
        r@ == replace_all_spec(s@, pat@, rep@),
{
    let slen = s.unicode_len();
    let plen = pat.unicode_len();
    if plen == 0 {
        return String::from_str(s);
    }
    let mut res = String::new();
    let mut i: usize = 0;
    let mut seg: usize = 0;
    proof {
        assert(s@.skip(0) =~= s@);
        assert(res@ + replace_all_spec(s@, pat@, rep@) =~= replace_all_spec(s@, pat@, rep@));
    }
    while plen <= slen - i
        invariant
            slen == s@.len(),
            plen == pat@.len(),
            plen >= 1,
            0 <= seg <= i <= slen,
            forall|j: int| seg <= j < i ==> !match_at(s@, pat@, j),
            replace_all_spec(s@, pat@, rep@) == res@ + replace_all_spec(
                s@.skip(seg as int),
                pat@,
                rep@,
            ),
        decreases slen - i,
    {
        if is_match_at(s, pat, i) {
            res.append(s.substring_char(seg, i));
            res.append(rep);
            proof {
                let suf = s@.skip(seg as int);
                assert forall|j: int| 0 <= j < i - seg implies !match_at(suf, pat@, j) by {
                    lemma_match_shift(s@, pat@, seg as int, j);
                }
                lemma_replace_skip_clean(suf, pat@, rep@, i - seg);
                assert(suf.take(i - seg) =~= s@.subrange(seg as int, i as int));
                lemma_match_shift(s@, pat@, seg as int, i - seg);
                lemma_match_shift(suf, pat@, i - seg, 0);
                lemma_replace_at_match(suf.skip(i - seg), pat@, rep@);
                assert(suf.skip(i - seg) =~= s@.skip(i as int));
                assert(s@.skip(i as int).skip(plen as int) =~= s@.skip(i + plen));
            }
            i += plen;
            seg = i;
        } else {
            i += 1;
        }
    }
    res.append(s.substring_char(seg, slen));
    proof {
        let suf = s@.skip(seg as int);
        assert forall|j: int| 0 <= j < suf.len() implies !match_at(suf, pat@, j) by {
            lemma_match_shift(s@, pat@, seg as int, j);
            assert(seg + j < i || seg + j + plen > slen);
        }
        lemma_replace_skip_clean(suf, pat@, rep@, suf.len() as int);
        assert(suf.take(suf.len() as int) =~= suf);
        assert(suf.skip(suf.len() as int).len() == 0);
        assert(suf =~= s@.subrange(seg as int, slen as int));
    }
    res
}

/// `s` split on the separator `sep`: the segments between occurrences of
/// `sep`, in order. The result always holds at least one segment.
pub open spec fn split_spec(s: Seq<char>, sep: char) -> Seq<Seq<char>>
    decreases s.len(),
{
    if s.len() == 0 {
        seq![Seq::<char>::empty()]
    } else if s[0] == sep {
        seq![Seq::<char>::empty()] + split_spec(s.skip(1), sep)
    } else {
        let rest = split_spec(s.skip(1), sep);
        seq![seq![s[0]] + rest[0]] + rest.skip(1)
    }
}

pub proof fn lemma_split_nonempty(s: Seq<char>, sep: char)
    ensures
        split_spec(s, sep).len() >= 1,
    decreases s.len(),
{
    if s.len() != 0 {
        lemma_split_nonempty(s.skip(1), sep);
    }
}

/// A string without the separator is a single segment.
proof fn lemma_split_clean(s: Seq<char>, sep: char)
    requires
        forall|j: int| 0 <= j < s.len() ==> s[j] != sep,
    ensures
        split_spec(s, sep) == seq![s],
    decreases s.len(),
{
    if s.len() == 0 {
        assert(split_spec(s, sep) =~~= seq![s]);
    } else {
        lemma_split_clean(s.skip(1), sep);
        assert(seq![s[0]] + s.skip(1) =~= s);
        assert(split_spec(s, sep) =~~= seq![s]);
    }
}

/// Splitting at the first separator: the clean prefix is the first segment and
/// the rest is split recursively.
proof fn lemma_split_at_sep(s: Seq<char>, sep: char, k: int)
    requires
        0 <= k < s.len(),
        forall|j: int| 0 <= j < k ==> s[j] != sep,
        s[k] == sep,
    ensures
        split_spec(s, sep) == seq![s.take(k)] + split_spec(s.skip(k + 1), sep),
    decreases k,
{
    if k == 0 {
        assert(s.take(0) =~= Seq::<char>::empty());
        assert(split_spec(s, sep) =~~= seq![s.take(0)] + split_spec(s.skip(1), sep));
    } else {
        assert forall|j: int| 0 <= j < k - 1 implies s.skip(1)[j] != sep by {
            assert(s.skip(1)[j] == s[j + 1]);
        }
        assert(s.skip(1)[k - 1] == sep);
        lemma_split_at_sep(s.skip(1), sep, k - 1);
        lemma_split_nonempty(s.skip(1).skip(k), sep);
        assert(s.skip(1).take(k - 1) =~= s.subrange(1, k));
        assert(s.skip(1).skip(k) =~= s.skip(k + 1));
        assert(seq![s[0]] + s.subrange(1, k) =~= s.take(k));
        assert(split_spec(s, sep) =~~= seq![s.take(k)] + split_spec(s.skip(k + 1), sep));
    }
}

/// Splits `s` on the character `sep`, returning the segments in order.
pub fn split_char(s: &str, sep: char) -> (r: Vec<String>)
    ensures
        r.deep_view() == split_spec(s@, sep),
{
    let len = s.unicode_len();
    let mut res: Vec<String> = Vec::new();
    let mut start: usize = 0;
    let mut i: usize = 0;
    proof {
        assert(s@.skip(0) =~= s@);
        assert(res.deep_view() + split_spec(s@, sep) =~~= split_spec(s@, sep));
    }
    while i < len
        invariant
            len == s@.len(),
            0 <= start <= i <= len,
            forall|j: int| start <= j < i ==> s@[j] != sep,
            split_spec(s@, sep) == res.deep_view() + split_spec(s@.skip(start as int), sep),
        decreases len - i,
    {
        if s.get_char(i) == sep {
            let ghost old_dv = res.deep_view();
            res.push(String::from_str(s.substring_char(start, i)));
            proof {
                let suf = s@.skip(start as int);
                assert forall|j: int| 0 <= j < i - start implies suf[j] != sep by {
                    assert(suf[j] == s@[start + j]);
                }
                assert(suf[i - start] == s@[i as int]);
                lemma_split_at_sep(suf, sep, i - start);
                assert(suf.take(i - start) =~= s@.subrange(start as int, i as int));
                assert(suf.skip(i - start + 1) =~= s@.skip(i + 1));
                assert(res.deep_view() =~~= old_dv + seq![s@.subrange(start as int, i as int)]);
                assert(res.deep_view() + split_spec(s@.skip(i + 1), sep) =~~= old_dv
                    + split_spec(suf, sep));
            }
            start = i + 1;
        }
        i += 1;
    }
    let ghost old_dv = res.deep_view();
    res.push(String::from_str(s.substring_char(start, len)));
    proof {
        let suf = s@.skip(start as int);
        assert forall|j: int| 0 <= j < suf.len() implies suf[j] != sep by {
            assert(suf[j] == s@[start + j]);
        }
        lemma_split_clean(suf, sep);
        assert(suf =~= s@.subrange(start as int, len as int));
        assert(res.deep_view() =~~= old_dv + seq![s@.subrange(start as int, len as int)]);
        assert(res.deep_view() =~~= split_spec(s@, sep));
    }
    res
}

/// The whitespace characters trimmed from alias arguments.
pub open spec fn is_space_char(c: char) -> bool {
    c == ' ' || c == '\t' || c == '\n' || c == '\r' || c == '\u{000B}' || c == '\u{000C}'
}

pub open spec fn trim_start_spec(s: Seq<char>) -> Seq<char>
    decreases s.len(),
{
    if s.len() > 0 && is_space_char(s[0]) {
        trim_start_spec(s.skip(1))
    } else {
        s
    }
}

pub open spec fn trim_end_spec(s: Seq<char>) -> Seq<char>
    decreases s.len(),
{
    if s.len() > 0 && is_space_char(s.last()) {
        trim_end_spec(s.drop_last())
    } else {
        s
    }
}

/// `s` without its leading and trailing whitespace.
pub open spec fn trim_spec(s: Seq<char>) -> Seq<char> {
    trim_end_spec(trim_start_spec(s))
}

proof fn lemma_trim_start_at(s: Seq<char>, a: int)
    requires
        0 <= a <= s.len(),
        forall|j: int| 0 <= j < a ==> is_space_char(s[j]),
        a < s.len() ==> !is_space_char(s[a]),
    ensures
        trim_start_spec(s) == s.skip(a),
    decreases a,
{
    if a == 0 {
        assert(s.skip(0) =~= s);
    } else {
        assert forall|j: int| 0 <= j < a - 1 implies is_space_char(s.skip(1)[j]) by {
            assert(s.skip(1)[j] == s[j + 1]);
        }
        lemma_trim_start_at(s.skip(1), a - 1);
        assert(s.skip(1).skip(a - 1) =~= s.skip(a));
    }
}

proof fn lemma_trim_end_at(s: Seq<char>, b: int)
    requires
        0 <= b <= s.len(),
        forall|j: int| b <= j < s.len() ==> is_space_char(s[j]),
        b > 0 ==> !is_space_char(s[b - 1]),
    ensures
        trim_end_spec(s) == s.take(b),
    decreases s.len(),
{
    if b == s.len() {
        assert(s.take(b) =~= s);
        if b > 0 {
            assert(!is_space_char(s.last()));
        }
    } else {
        assert(is_space_char(s.last()));
        assert forall|j: int| b <= j < s.drop_last().len() implies is_space_char(
            s.drop_last()[j],
        ) by {
            assert(s.drop_last()[j] == s[j]);
        }
        lemma_trim_end_at(s.drop_last(), b);
        assert(s.drop_last().take(b) =~= s.take(b));
    }
}

/// True exactly when `c` is one of the whitespace characters.
pub fn is_space(c: char) -> (b: bool)
    ensures
        b == is_space_char(c),
{
    c == ' ' || c == '\t' || c == '\n' || c == '\r' || c == '\u{000B}' || c == '\u{000C}'
}

/// Removes leading and trailing whitespace from `s`.
pub fn trim(s: &str) -> (r: String)
    ensures
        r@ == trim_spec(s@),
{
    let len = s.unicode_len();
    let mut a: usize = 0;
    while a < len && is_space(s.get_char(a))
        invariant
            len == s@.len(),
            0 <= a <= len,
            forall|j: int| 0 <= j < a ==> is_space_char(s@[j]),
        decreases len - a,
    {
        a += 1;
    }
    proof {
        lemma_trim_start_at(s@, a as int);
    }
    if a == len {
        proof {
            assert(s@.skip(a as int).len() == 0);
            assert(trim_end_spec(s@.skip(a as int)) =~= Seq::<char>::empty());
        }
        return String::new();
    }
    let mut b: usize = len;
    while b > a && is_space(s.get_char(b - 1))
        invariant
            len == s@.len(),
            a <= b <= len,
            a < len,
            !is_space_char(s@[a as int]),
            forall|j: int| b <= j < len ==> is_space_char(s@[j]),
        decreases b,
    {
        b -= 1;
    }
    proof {
        let suf = s@.skip(a as int);
        assert(b > a) by {
            if b == a {
                assert(is_space_char(s@[a as int]));
            }
        }
        assert forall|j: int| b - a <= j < suf.len() implies is_space_char(suf[j]) by {
            assert(suf[j] == s@[a + j]);
        }
        assert(suf[b - a - 1] == s@[b - 1]);
        lemma_trim_end_at(suf, b - a);
        assert(suf.take(b - a) =~= s@.subrange(a as int, b as int));
    }
    String::from_str(s.substring_char(a, b))
}

/// The decimal digit character for `d` in `0 ..= 9`.
pub open spec fn dec_digit(d: int) -> char {
    if d == 0 {
        '0'
    } else if d == 1 {
        '1'
    } else if d == 2 {
        '2'
    } else if d == 3 {
        '3'
    } else if d == 4 {
        '4'
    } else if d == 5 {
        '5'
    } else if d == 6 {
        '6'
    } else if d == 7 {
        '7'
    } else if d == 8 {
        '8'
    } else {
        '9'
    }
}

/// The decimal rendering of `n`, most significant digit first, no leading zero.
pub open spec fn dec_rep(n: nat) -> Seq<char>
    decreases n,
{
    if n < 10 {
        seq![dec_digit(n as int)]
    } else {
        dec_rep(n / 10) + seq![dec_digit((n % 10) as int)]
    }
}

fn digit_str(d: u64) -> (r: &'static str)
    requires
        d < 10,
    ensures
        r@ == seq![dec_digit(d as int)],
{
    proof {
        reveal_strlit("0");
        reveal_strlit("1");
        reveal_strlit("2");
        reveal_strlit("3");
        reveal_strlit("4");
        reveal_strlit("5");
        reveal_strlit("6");
        reveal_strlit("7");
        reveal_strlit("8");
        reveal_strlit("9");
    }
    if d == 0 {
        proof {
            assert("0"@ =~= seq![dec_digit(0)]);
        }
        "0"
    } else if d == 1 {
        proof {
            assert("1"@ =~= seq![dec_digit(1)]);
        }
        "1"
    } else if d == 2 {
        proof {
            assert("2"@ =~= seq![dec_digit(2)]);
        }
        "2"
    } else if d == 3 {
        proof {
            assert("3"@ =~= seq![dec_digit(3)]);
        }
        "3"
    } else if d == 4 {
        proof {
            assert("4"@ =~= seq![dec_digit(4)]);
        }
        "4"
    } else if d == 5 {
        proof {
            assert("5"@ =~= seq![dec_digit(5)]);
        }
        "5"
    } else if d == 6 {
        proof {
            assert("6"@ =~= seq![dec_digit(6)]);
        }
        "6"
    } else if d == 7 {
        proof {
            assert("7"@ =~= seq![dec_digit(7)]);
        }
        "7"
    } else if d == 8 {
        proof {
            assert("8"@ =~= seq![dec_digit(8)]);
        }
        "8"
    } else {
        proof {
            assert("9"@ =~= seq![dec_digit(9)]);
        }
        "9"
    }
}

/// Renders `n` in decimal.
pub fn u64_to_dec(n: u64) -> (r: String)
    ensures
        r@ == dec_rep(n as nat),
    decreases n,
{
    if n < 10 {
        String::from_str(digit_str(n))
    } else {
        let mut r = u64_to_dec(n / 10);
        r.append(digit_str(n % 10));
        r
    }
}

/// The positional placeholder marker `<i>` looked for in template strings.
pub open spec fn marker_text(i: nat) -> Seq<char> {
    seq!['<'] + dec_rep(i) + seq!['>']
}

/// Builds the marker `<i>`.
pub fn marker(i: u64) -> (r: String)
    ensures
        r@ == marker_text(i as nat),
{
    proof {
        reveal_strlit("<");
        reveal_strlit(">");
        assert("<"@ =~= seq!['<']);
        assert(">"@ =~= seq!['>']);
    }
    let mut r = String::from_str("<");
    let digits = u64_to_dec(i);
    r.append(digits.as_str());
    r.append(">");
    proof {
        assert(r@ =~= marker_text(i as nat));
    }
    r
}

/// `s` ends with the suffix `suf`.
pub open spec fn ends_with_spec(s: Seq<char>, suf: Seq<char>) -> bool {
    &&& suf.len() <= s.len()
    &&& s.subrange(s.len() - suf.len(), s.len() as int) == suf
}

/// True exactly when `s` ends with `suf`.
pub fn ends_with(s: &str, suf: &str) -> (b: bool)
    ensures
        b == ends_with_spec(s@, suf@),
{
    let sl = s.unicode_len();
    let fl = suf.unicode_len();
    if fl > sl {
        false
    } else {
        is_match_at(s, suf, sl - fl)
    }
}

/// `s` without the prefix `pre` when it starts with it, else `s` unchanged.
pub open spec fn strip_prefix_spec(s: Seq<char>, pre: Seq<char>) -> Seq<char> {
    if match_at(s, pre, 0) {
        s.skip(pre.len() as int)
    } else {
        s
    }
}

/// `s` without the suffix `suf` when it ends with it, else `s` unchanged.
pub open spec fn strip_suffix_spec(s: Seq<char>, suf: Seq<char>) -> Seq<char> {
    if ends_with_spec(s, suf) {
        s.take(s.len() - suf.len())
    } else {
        s
    }
}

/// Removes a leading `pre` from `s` where present.
pub fn strip_prefix<'a>(s: &'a str, pre: &str) -> (r: &'a str)
    ensures
        r@ == strip_prefix_spec(s@, pre@),
{
    let sl = s.unicode_len();
    let pl = pre.unicode_len();
    if pl <= sl && is_match_at(s, pre, 0) {
        proof {
            assert(s@.skip(pl as int) =~= s@.subrange(pl as int, sl as int));
        }
        s.substring_char(pl, sl)
    } else {
        s
    }
}

/// Removes a trailing `suf` from `s` where present.
pub fn strip_suffix<'a>(s: &'a str, suf: &str) -> (r: &'a str)
    ensures
        r@ == strip_suffix_spec(s@, suf@),
{
    let sl = s.unicode_len();
    let fl = suf.unicode_len();
    if fl <= sl && is_match_at(s, suf, sl - fl) {
        proof {
            assert(s@.take(sl - fl) =~= s@.subrange(0, sl - fl));
        }
        s.substring_char(0, sl - fl)
    } else {
        s
    }
}

/// True exactly when the two strings hold the same characters.
pub fn str_eq(a: &str, b: &str) -> (r: bool)
    ensures
        r == (a@ == b@),
{
    let alen = a.unicode_len();
    let blen = b.unicode_len();
    if alen != blen {
        return false;
    }
    let mut j: usize = 0;
    while j < alen
        invariant
            alen == a@.len(),
            alen == b@.len(),
            0 <= j <= alen,
            forall|k: int| 0 <= k < j ==> a@[k] == b@[k],
        decreases alen - j,
    {
        if a.get_char(j) != b.get_char(j) {
            assert(a@ != b@) by {
                assert(a@[j as int] != b@[j as int]);
            }
            return false;
        }
        j += 1;
    }
    assert(a@ =~= b@);
    true
}

} // verus!
