//! Byte-level text utilities shared by the parsers and models.
//!
//! Offsets are UTF-8 byte offsets.  A `&str` is viewed both as its characters
//! (`s@`) and as its encoding (`s.spec_bytes()`, which is `encode_utf8(s@)`).
use vstd::prelude::*;
use vstd::string::*;
use vstd::utf8::*;

verus! {

broadcast use vstd::utf8::encode_utf8_valid_utf8, vstd::utf8::encode_utf8_decode_utf8;

/// The UTF-8 encoding of a character sequence.
pub open spec fn enc(s: Seq<char>) -> Seq<u8> {
    encode_utf8(s)
}

/// Whether `pat` occurs in `bs` starting at byte `i`.
pub open spec fn has_at(bs: Seq<u8>, i: int, pat: Seq<u8>) -> bool {
    0 <= i && i + pat.len() <= bs.len() && bs.subrange(i, i + pat.len()) == pat
}

/// Whether `pat` occurs anywhere in `bs` at or after byte `from`.
pub open spec fn occurs_from(bs: Seq<u8>, from: int, pat: Seq<u8>) -> bool {
    exists|j: int| from <= j && #[trigger] has_at(bs, j, pat)
}

/// The byte index of the first occurrence of `pat` at or after `from`, when there is one.
pub open spec fn first_at(bs: Seq<u8>, from: int, pat: Seq<u8>, j: int) -> bool {
    &&& from <= j
    &&& has_at(bs, j, pat)
    &&& forall|k: int| from <= k < j ==> !#[trigger] has_at(bs, k, pat)
}

/// Byte-wise lexicographic order, the order of `String` and `str`.
pub open spec fn bytes_lt(a: Seq<u8>, b: Seq<u8>) -> bool
    decreases a.len(),
{
    if a.len() == 0 {
        b.len() > 0
    } else if b.len() == 0 {
        false
    } else if a[0] < b[0] {
        true
    } else if a[0] > b[0] {
        false
    } else {
        bytes_lt(a.drop_first(), b.drop_first())
    }
}

/// Character-sequence order, induced by the byte order of the encodings.
pub open spec fn text_lt(a: Seq<char>, b: Seq<char>) -> bool {
    bytes_lt(enc(a), enc(b))
}

pub proof fn lemma_enc_concat(a: Seq<char>, b: Seq<char>)
    ensures
        enc(a + b) == enc(a) + enc(b),
    decreases a.len(),
{
    if a.len() == 0 {
        assert(a + b =~= b);
        assert(enc(a) + enc(b) =~= enc(b));
    } else {
        lemma_enc_concat(a.drop_first(), b);
        assert((a + b).drop_first() =~= a.drop_first() + b);
        assert((a + b)[0] == a[0]);
        assert(enc(a + b) =~= enc(a) + enc(b));
    }
}

pub proof fn lemma_enc_injective(a: Seq<char>, b: Seq<char>)
    requires
        enc(a) == enc(b),
    ensures
        a == b,
{
    assert(decode_utf8(encode_utf8(a)) == a);
    assert(decode_utf8(encode_utf8(b)) == b);
}

pub proof fn lemma_bytes_lt_irrefl(a: Seq<u8>)
    ensures
        !bytes_lt(a, a),
    decreases a.len(),
{
    if a.len() > 0 {
        lemma_bytes_lt_irrefl(a.drop_first());
    }
}

pub proof fn lemma_bytes_lt_asym(a: Seq<u8>, b: Seq<u8>)
    requires
        bytes_lt(a, b),
    ensures
        !bytes_lt(b, a),
    decreases a.len(),
{
    if a.len() > 0 && b.len() > 0 && a[0] == b[0] {
        lemma_bytes_lt_asym(a.drop_first(), b.drop_first());
    }
}

pub proof fn lemma_bytes_lt_total(a: Seq<u8>, b: Seq<u8>)
    requires
        a != b,
    ensures
        bytes_lt(a, b) || bytes_lt(b, a),
    decreases a.len(),
{
    if a.len() > 0 && b.len() > 0 && a[0] == b[0] {
        if a.drop_first() == b.drop_first() {
            assert(a =~= seq![a[0]] + a.drop_first());
            assert(b =~= seq![b[0]] + b.drop_first());
        }
        lemma_bytes_lt_total(a.drop_first(), b.drop_first());
    } else if a.len() == 0 && b.len() == 0 {
        assert(a =~= b);
    }
}

pub proof fn lemma_bytes_lt_trans(a: Seq<u8>, b: Seq<u8>, c: Seq<u8>)
    requires
        bytes_lt(a, b),
        bytes_lt(b, c),
    ensures
        bytes_lt(a, c),
    decreases a.len(),
{
    if a.len() > 0 && b.len() > 0 && c.len() > 0 && a[0] == b[0] && b[0] == c[0] {
        lemma_bytes_lt_trans(a.drop_first(), b.drop_first(), c.drop_first());
    }
}

/// `text_lt` is a strict total order on character sequences.
pub proof fn lemma_text_lt_order(a: Seq<char>, b: Seq<char>, c: Seq<char>)
    ensures
        !text_lt(a, a),
        text_lt(a, b) ==> !text_lt(b, a),
        a != b ==> text_lt(a, b) || text_lt(b, a),
        text_lt(a, b) && text_lt(b, c) ==> text_lt(a, c),
{
    lemma_bytes_lt_irrefl(enc(a));
    if text_lt(a, b) {
        lemma_bytes_lt_asym(enc(a), enc(b));
    }
    if a != b {
        if enc(a) == enc(b) {
            lemma_enc_injective(a, b);
        }
        lemma_bytes_lt_total(enc(a), enc(b));
    }
    if text_lt(a, b) && text_lt(b, c) {
        lemma_bytes_lt_trans(enc(a), enc(b), enc(c));
    }
}

/// Compares two strings by their bytes: `-1` when `a` sorts first, `0` when
/// they are equal, and `1` when `b` sorts first.
pub fn compare_str(a: &str, b: &str) -> (r: i8)
    ensures
        r == 0 <==> a@ == b@,
        r == -1 <==> text_lt(a@, b@),
        r == 1 <==> text_lt(b@, a@),
        r == -1 || r == 0 || r == 1,
{
    let x = a.as_bytes();
    let y = b.as_bytes();
    let ghost xa = x@;
    let ghost yb = y@;
    proof {
        lemma_text_lt_order(a@, b@, b@);
        assert(xa.skip(0) =~= xa);
        assert(yb.skip(0) =~= yb);
    }
    let mut i: usize = 0;
    while i < x.len() && i < y.len() && x[i] == y[i]
        invariant
            x@ == xa,
            y@ == yb,
            xa == enc(a@),
            yb == enc(b@),
            i <= xa.len(),
            i <= yb.len(),
            xa.subrange(0, i as int) == yb.subrange(0, i as int),
            bytes_lt(xa, yb) == bytes_lt(xa.skip(i as int), yb.skip(i as int)),
            bytes_lt(yb, xa) == bytes_lt(yb.skip(i as int), xa.skip(i as int)),
        decreases xa.len() - i,
    {
        assert(xa.skip(i as int).drop_first() =~= xa.skip(i + 1));
        assert(yb.skip(i as int).drop_first() =~= yb.skip(i + 1));
        assert(xa.subrange(0, i + 1) =~= xa.subrange(0, i as int).push(xa[i as int]));
        assert(yb.subrange(0, i + 1) =~= yb.subrange(0, i as int).push(yb[i as int]));
        i = i + 1;
    }
    if i < x.len() && i < y.len() {
        if x[i] < y[i] {
            proof {
                assert(xa != yb) by { assert(xa[i as int] != yb[i as int]); }
                if a@ == b@ {}
            }
            -1
        } else {
            proof {
                assert(xa != yb) by { assert(xa[i as int] != yb[i as int]); }
                if a@ == b@ {}
            }
            1
        }
    } else if i < x.len() {
        proof {
            assert(xa != yb) by { assert(xa.len() != yb.len()); }
            if a@ == b@ {}
        }
        1
    } else if i < y.len() {
        proof {
            assert(xa != yb) by { assert(xa.len() != yb.len()); }
            if a@ == b@ {}
        }
        -1
    } else {
        proof {
            assert(xa =~= xa.subrange(0, i as int));
            assert(yb =~= yb.subrange(0, i as int));
            lemma_enc_injective(a@, b@);
        }
        0
    }
}

/// Whether two strings hold the same characters.
pub fn str_eq(a: &str, b: &str) -> (r: bool)
    ensures
        r == (a@ == b@),
{
    compare_str(a, b) == 0
}

/// Whether `s` begins with `p`.
pub open spec fn starts_with(s: Seq<char>, p: Seq<char>) -> bool {
    p.len() <= s.len() && s.take(p.len() as int) == p
}

/// The index of the first occurrence of `p` in `s`.
pub open spec fn find_seq(s: Seq<char>, p: Seq<char>) -> Option<int>
    decreases s.len(),
{
    if starts_with(s, p) {
        Some(0)
    } else if s.len() == 0 {
        None
    } else {
        match find_seq(s.drop_first(), p) {
            Some(i) => Some(i + 1),
            None => None,
        }
    }
}

/// Whether `p` occurs in `s` at index `k`.
pub open spec fn match_at(s: Seq<char>, k: int, p: Seq<char>) -> bool {
    0 <= k <= s.len() && starts_with(s.skip(k), p)
}

pub proof fn lemma_find_seq(s: Seq<char>, p: Seq<char>)
    ensures
        find_seq(s, p) matches Some(i) ==> match_at(s, i, p) && forall|k: int| 0 <= k < i ==> !#[trigger] match_at(s, k, p),
        find_seq(s, p) is None ==> forall|k: int| !#[trigger] match_at(s, k, p),
    decreases s.len(),
{
    assert(s.skip(0) =~= s);
    if starts_with(s, p) {
    } else if s.len() == 0 {
        assert forall|k: int| !#[trigger] match_at(s, k, p) by {
            if match_at(s, k, p) {
                assert(k == 0);
            }
        }
    } else {
        lemma_find_seq(s.drop_first(), p);
        assert forall|k: int| 1 <= k <= s.len() implies #[trigger] match_at(s, k, p) == match_at(s.drop_first(), k - 1, p) by {
            assert(s.skip(k) =~= s.drop_first().skip(k - 1));
        }
        if let Some(i) = find_seq(s.drop_first(), p) {
            assert(match_at(s, i + 1, p));
            assert forall|k: int| 0 <= k < i + 1 implies !#[trigger] match_at(s, k, p) by {
                if k >= 1 {
                    assert(!match_at(s.drop_first(), k - 1, p));
                }
            }
        } else {
            assert forall|k: int| !#[trigger] match_at(s, k, p) by {
                if 1 <= k <= s.len() {
                    assert(!match_at(s.drop_first(), k - 1, p));
                }
            }
        }
    }
}

/// The characters of a string.
pub fn chars_of(s: &str) -> (v: Vec<char>)
    ensures
        v@ == s@,
{
    let mut v: Vec<char> = Vec::new();
    for c in it: s.chars()
        invariant
            v@ == it.seq().take(it.index() as int),
            it.seq() == s@,
    {
        v.push(c);
        proof {
            assert(v@ =~= it.seq().take(it.index() + 1));
        }
    }
    proof {
        assert(v@ =~= s@);
    }
    v
}

/// Appends one character to a string.
#[verifier::external_body]
pub fn push_char(s: &mut String, c: char)
    ensures
        final(s)@ == old(s)@.push(c),
{
    s.push(c);
}

/// The string holding characters `a..b` of `cs`.
pub fn string_of(cs: &Vec<char>, a: usize, b: usize) -> (r: String)
    requires
        a <= b <= cs@.len(),
    ensures
        r@ == cs@.subrange(a as int, b as int),
{
    let mut r = String::new();
    let mut i = a;
    while i < b
        invariant
            a <= i <= b <= cs@.len(),
            r@ == cs@.subrange(a as int, i as int),
        decreases b - i,
    {
        push_char(&mut r, cs[i]);
        proof {
            assert(r@ =~= cs@.subrange(a as int, i + 1));
        }
        i = i + 1;
    }
    r
}

/// Whether `pat` occurs in `cs` at index `k`.
pub fn match_at_exec(cs: &Vec<char>, k: usize, pat: &Vec<char>) -> (b: bool)
    requires
        k <= cs@.len(),
    ensures
        b == match_at(cs@, k as int, pat@),
{
    if pat.len() > cs.len() - k {
        return false;
    }
    let mut j: usize = 0;
    while j < pat.len()
        invariant
            k + pat@.len() <= cs@.len(),
            cs@.len() <= usize::MAX,
            j <= pat@.len(),
            forall|t: int| 0 <= t < j ==> cs@[k + t] == pat@[t],
        decreases pat@.len() - j,
    {
        if cs[k + j] != pat[j] {
            proof {
                assert(cs@.skip(k as int).take(pat@.len() as int)[j as int] != pat@[j as int]);
            }
            return false;
        }
        j = j + 1;
    }
    proof {
        assert(cs@.skip(k as int).take(pat@.len() as int) =~= pat@);
    }
    true
}

/// The index of the first occurrence of `pat` in `cs` at or after `from`.
pub fn find_from(cs: &Vec<char>, from: usize, pat: &Vec<char>) -> (r: Option<usize>)
    requires
        from <= cs@.len(),
    ensures
        r matches Some(i) ==> from <= i <= cs@.len() && match_at(cs@, i as int, pat@)
            && forall|k: int| from <= k < i ==> !#[trigger] match_at(cs@, k, pat@),
        r is None ==> forall|k: int| from <= k ==> !#[trigger] match_at(cs@, k, pat@),
{
    let mut i = from;
    while i <= cs.len()
        invariant
            from <= i,
            i <= cs@.len() + 1,
            forall|k: int| from <= k < i ==> !#[trigger] match_at(cs@, k, pat@),
        decreases cs@.len() + 1 - i,
    {
        if match_at_exec(cs, i, pat) {
            return Some(i);
        }
        if i == cs.len() {
            proof {
                assert forall|k: int| from <= k implies !#[trigger] match_at(cs@, k, pat@) by {
                    if k < i {
                    }
                }
            }
            return None;
        }
        i = i + 1;
    }
    None
}

/// The first occurrence found by [`find_from`] agrees with [`find_seq`] on the suffix.
pub proof fn lemma_find_from_seq(s: Seq<char>, from: int, p: Seq<char>)
    requires
        0 <= from <= s.len(),
    ensures
        forall|k: int| #![trigger match_at(s.skip(from), k, p)] 0 <= k ==> match_at(s.skip(from), k, p) == match_at(s, k + from, p),
{
    assert forall|k: int| #![trigger match_at(s.skip(from), k, p)] 0 <= k implies match_at(s.skip(from), k, p) == match_at(s, k + from, p) by {
        if k <= s.len() - from {
            assert(s.skip(from).skip(k) =~= s.skip(k + from));
        }
    }
}

/// The first match found from `from` (if any) is the first match of the suffix.
pub proof fn lemma_find_from_agrees(s: Seq<char>, from: int, p: Seq<char>, r: Option<int>)
    requires
        0 <= from <= s.len(),
        r matches Some(i) ==> from <= i && match_at(s, i, p) && forall|k: int| from <= k < i ==> !#[trigger] match_at(s, k, p),
        r is None ==> forall|k: int| from <= k ==> !#[trigger] match_at(s, k, p),
    ensures
        find_seq(s.skip(from), p) == (match r {
            Some(i) => Some(i - from),
            None => None,
        }),
{
    lemma_find_seq(s.skip(from), p);
    lemma_find_from_seq(s, from, p);
    match find_seq(s.skip(from), p) {
        Some(j) => {
            assert(match_at(s.skip(from), j, p));
            assert(match_at(s, j + from, p));
            if let Some(i) = r {
                if i - from < j {
                    assert(match_at(s.skip(from), i - from, p));
                }
            }
        },
        None => {
            if let Some(i) = r {
                assert(match_at(s.skip(from), i - from, p));
            }
        },
    }
}

/// The index (into `s`) of the first occurrence of `p` at or after `from`.
pub open spec fn find_after(s: Seq<char>, from: int, p: Seq<char>) -> Option<int> {
    if 0 <= from <= s.len() {
        match find_seq(s.skip(from), p) {
            Some(j) => Some(from + j),
            None => None,
        }
    } else {
        None
    }
}

pub proof fn lemma_find_after(s: Seq<char>, from: int, p: Seq<char>)
    requires
        0 <= from <= s.len(),
    ensures
        find_after(s, from, p) matches Some(k) ==> from <= k && k + p.len() <= s.len() && match_at(s, k, p)
            && forall|t: int| from <= t < k ==> !#[trigger] match_at(s, t, p),
        find_after(s, from, p) is None ==> forall|t: int| from <= t ==> !#[trigger] match_at(s, t, p),
{
    lemma_find_seq(s.skip(from), p);
    lemma_find_from_seq(s, from, p);
    match find_seq(s.skip(from), p) {
        Some(j) => {
            assert(match_at(s.skip(from), j, p));
            assert forall|t: int| from <= t < from + j implies !#[trigger] match_at(s, t, p) by {
                assert(!match_at(s.skip(from), t - from, p));
            }
        },
        None => {
            assert forall|t: int| from <= t implies !#[trigger] match_at(s, t, p) by {
                assert(!match_at(s.skip(from), t - from, p));
            }
        },
    }
}

/// [`find_from`], stated through [`find_after`].
pub fn find_next(cs: &Vec<char>, from: usize, pat: &Vec<char>) -> (r: Option<usize>)
    requires
        from <= cs@.len(),
    ensures
        r matches Some(i) ==> find_after(cs@, from as int, pat@) == Some(i as int),
        r is None ==> find_after(cs@, from as int, pat@) is None,
{
    let r = find_from(cs, from, pat);
    proof {
        let ri: Option<int> = match r {
            Some(i) => Some(i as int),
            None => None,
        };
        lemma_find_from_agrees(cs@, from as int, pat@, ri);
    }
    r
}

/// The characters `a..b` of `cs`.
pub fn sub_chars(cs: &Vec<char>, a: usize, b: usize) -> (r: Vec<char>)
    requires
        a <= b <= cs@.len(),
    ensures
        r@ == cs@.subrange(a as int, b as int),
{
    let mut r: Vec<char> = Vec::new();
    let mut i = a;
    while i < b
        invariant
            a <= i <= b <= cs@.len(),
            r@ == cs@.subrange(a as int, i as int),
        decreases b - i,
    {
        r.push(cs[i]);
        proof {
            assert(r@ =~= cs@.subrange(a as int, i + 1));
        }
        i = i + 1;
    }
    r
}

/// The last index `k < n` at which `p` occurs in `s`.
pub open spec fn last_match_before(s: Seq<char>, p: Seq<char>, n: int) -> Option<int>
    decreases n,
{
    if n <= 0 {
        None
    } else if match_at(s, n - 1, p) {
        Some(n - 1)
    } else {
        last_match_before(s, p, n - 1)
    }
}

/// The index of the last occurrence of `p` in `s`.
pub open spec fn rfind_seq(s: Seq<char>, p: Seq<char>) -> Option<int> {
    last_match_before(s, p, s.len() + 1int)
}

pub proof fn lemma_last_match_before(s: Seq<char>, p: Seq<char>, n: int)
    ensures
        last_match_before(s, p, n) matches Some(k) ==> 0 <= k < n && match_at(s, k, p),
    decreases n,
{
    if n > 0 && !match_at(s, n - 1, p) {
        lemma_last_match_before(s, p, n - 1);
    }
}

/// The index of the last occurrence of `pat` in `cs`.
pub fn rfind_chars(cs: &Vec<char>, pat: &Vec<char>) -> (r: Option<usize>)
    ensures
        r matches Some(k) ==> rfind_seq(cs@, pat@) == Some(k as int) && match_at(cs@, k as int, pat@),
        r is None ==> rfind_seq(cs@, pat@) is None,
{
    let mut k: usize = cs.len();
    loop
        invariant
            k <= cs@.len(),
            last_match_before(cs@, pat@, k + 1) == rfind_seq(cs@, pat@),
        decreases k,
    {
        if match_at_exec(cs, k, pat) {
            return Some(k);
        }
        if k == 0 {
            assert(last_match_before(cs@, pat@, 0) is None);
            return None;
        }
        k = k - 1;
    }
}

/// Whether `s` ends with `p`.
pub open spec fn ends_with(s: Seq<char>, p: Seq<char>) -> bool {
    p.len() <= s.len() && s.skip(s.len() - p.len()) == p
}

/// Whether characters `a..b` of `cs` begin with `pat`.
pub fn region_starts_with(cs: &Vec<char>, a: usize, b: usize, pat: &Vec<char>) -> (r: bool)
    requires
        a <= b <= cs@.len(),
    ensures
        r == starts_with(cs@.subrange(a as int, b as int), pat@),
{
    let ghost t = cs@.subrange(a as int, b as int);
    if pat.len() > b - a {
        return false;
    }
    let mut j: usize = 0;
    while j < pat.len()
        invariant
            a + pat@.len() <= b <= cs@.len(),
            t == cs@.subrange(a as int, b as int),
            j <= pat@.len(),
            forall|k: int| 0 <= k < j ==> cs@[a + k] == pat@[k],
        decreases pat@.len() - j,
    {
        if cs[a + j] != pat[j] {
            proof {
                assert(t.take(pat@.len() as int)[j as int] == cs@[a + j]);
            }
            return false;
        }
        j = j + 1;
    }
    proof {
        assert(t.take(pat@.len() as int) =~= pat@);
    }
    true
}

/// Whether characters `a..b` of `cs` end with `pat`.
pub fn region_ends_with(cs: &Vec<char>, a: usize, b: usize, pat: &Vec<char>) -> (r: bool)
    requires
        a <= b <= cs@.len(),
    ensures
        r == ends_with(cs@.subrange(a as int, b as int), pat@),
{
    let ghost t = cs@.subrange(a as int, b as int);
    if pat.len() > b - a {
        return false;
    }
    let c = b - pat.len();
    let r = region_starts_with(cs, c, b, pat);
    proof {
        assert(t.skip(t.len() - pat@.len()) =~= cs@.subrange(c as int, b as int));
        assert(cs@.subrange(c as int, b as int).take(pat@.len() as int) =~= cs@.subrange(c as int, b as int));
    }
    r
}

/// Whether characters `a..b` of `cs` are exactly `pat`.
pub fn region_is(cs: &Vec<char>, a: usize, b: usize, pat: &Vec<char>) -> (r: bool)
    requires
        a <= b <= cs@.len(),
    ensures
        r == (cs@.subrange(a as int, b as int) == pat@),
{
    if b - a != pat.len() {
        return false;
    }
    let r = region_starts_with(cs, a, b, pat);
    proof {
        let t = cs@.subrange(a as int, b as int);
        assert(t.take(pat@.len() as int) =~= t);
    }
    r
}

/// `char::is_whitespace`: the characters with the Unicode White_Space property.
pub open spec fn is_ws(c: char) -> bool {
    let u = c as u32;
    ||| 0x9 <= u <= 0xd
    ||| u == 0x20
    ||| u == 0x85
    ||| u == 0xa0
    ||| u == 0x1680
    ||| 0x2000 <= u <= 0x200a
    ||| u == 0x2028
    ||| u == 0x2029
    ||| u == 0x202f
    ||| u == 0x205f
    ||| u == 0x3000
}

/// Whether a character is one of the ASCII whitespace bytes: tab, line feed,
/// form feed, carriage return and space.
pub open spec fn is_ascii_ws(c: char) -> bool {
    c == '\t' || c == '\n' || c == '\x0C' || c == '\r' || c == ' '
}

pub fn is_whitespace(c: char) -> (b: bool)
    ensures
        b == is_ws(c),
{
    let u = c as u32;
    (0x9 <= u && u <= 0xd) || u == 0x20 || u == 0x85 || u == 0xa0 || u == 0x1680 || (0x2000 <= u
        && u <= 0x200a) || u == 0x2028 || u == 0x2029 || u == 0x202f || u == 0x205f || u == 0x3000
}

pub fn is_ascii_whitespace(c: char) -> (b: bool)
    ensures
        b == is_ascii_ws(c),
{
    c == '\t' || c == '\n' || c == '\x0C' || c == '\r' || c == ' '
}

/// The first index in `a..b` whose character is not whitespace, or `b`.
pub open spec fn skip_ws(s: Seq<char>, a: int, b: int) -> int
    decreases b - a,
{
    if a < b && is_ws(s[a]) {
        skip_ws(s, a + 1, b)
    } else {
        a
    }
}

/// The end of `a..b` once trailing whitespace is removed.
pub open spec fn trim_end_ws(s: Seq<char>, a: int, b: int) -> int
    decreases b - a,
{
    if a < b && is_ws(s[b - 1]) {
        trim_end_ws(s, a, b - 1)
    } else {
        b
    }
}

/// `str::trim`: the characters without leading and trailing whitespace.
pub open spec fn trim_ws(s: Seq<char>) -> Seq<char> {
    let a = skip_ws(s, 0, s.len() as int);
    s.subrange(a, trim_end_ws(s, a, s.len() as int))
}

/// The first index in `a..b` whose character is whitespace, or `b`.
pub open spec fn next_ws(s: Seq<char>, a: int, b: int) -> int
    decreases b - a,
{
    if a < b && !is_ws(s[a]) {
        next_ws(s, a + 1, b)
    } else {
        a
    }
}

pub proof fn lemma_skip_ws(s: Seq<char>, a: int, b: int)
    requires
        a <= b,
    ensures
        a <= skip_ws(s, a, b) <= b,
        a <= next_ws(s, a, b) <= b,
        a <= trim_end_ws(s, a, b) <= b,
    decreases b - a,
{
    if a < b {
        lemma_skip_ws(s, a + 1, b);
        lemma_skip_ws(s, a, b - 1);
    }
}

/// `str::trim` on characters `a..b` of `cs`.
pub fn trimmed(cs: &Vec<char>, a: usize, b: usize) -> (r: String)
    requires
        a <= b <= cs@.len(),
    ensures
        r@ == trim_ws(cs@.subrange(a as int, b as int)),
{
    let t = sub_chars(cs, a, b);
    let n = t.len();
    let mut x: usize = 0;
    while x < n && is_whitespace(t[x])
        invariant
            x <= n == t@.len(),
            skip_ws(t@, x as int, n as int) == skip_ws(t@, 0, n as int),
        decreases n - x,
    {
        x = x + 1;
    }
    let mut y: usize = n;
    while y > x && is_whitespace(t[y - 1])
        invariant
            x <= y <= n == t@.len(),
            skip_ws(t@, 0, n as int) == x,
            trim_end_ws(t@, x as int, y as int) == trim_end_ws(t@, x as int, n as int),
        decreases y,
    {
        y = y - 1;
    }
    string_of(&t, x, y)
}

pub proof fn lemma_skip_ws_stop(s: Seq<char>, a: int, b: int)
    requires
        a <= b,
    ensures
        skip_ws(s, a, b) < b ==> !is_ws(s[skip_ws(s, a, b)]),
        a < b && !is_ws(s[a]) ==> a < next_ws(s, a, b),
    decreases b - a,
{
    lemma_skip_ws(s, a, b);
    if a < b {
        lemma_skip_ws(s, a + 1, b);
        if is_ws(s[a]) {
            lemma_skip_ws_stop(s, a + 1, b);
        }
    }
}

pub fn skip_ws_exec(cs: &Vec<char>, a: usize, b: usize) -> (r: usize)
    requires
        a <= b <= cs@.len(),
    ensures
        a <= r <= b,
        r == skip_ws(cs@, a as int, b as int),
{
    let mut x = a;
    while x < b && is_whitespace(cs[x])
        invariant
            a <= x <= b <= cs@.len(),
            skip_ws(cs@, x as int, b as int) == skip_ws(cs@, a as int, b as int),
        decreases b - x,
    {
        x = x + 1;
    }
    x
}

pub fn trim_end_exec(cs: &Vec<char>, a: usize, b: usize) -> (r: usize)
    requires
        a <= b <= cs@.len(),
    ensures
        a <= r <= b,
        r == trim_end_ws(cs@, a as int, b as int),
{
    let mut y = b;
    while y > a && is_whitespace(cs[y - 1])
        invariant
            a <= y <= b <= cs@.len(),
            trim_end_ws(cs@, a as int, y as int) == trim_end_ws(cs@, a as int, b as int),
        decreases y,
    {
        y = y - 1;
    }
    y
}

pub fn next_ws_exec(cs: &Vec<char>, a: usize, b: usize) -> (r: usize)
    requires
        a <= b <= cs@.len(),
    ensures
        a <= r <= b,
        r == next_ws(cs@, a as int, b as int),
{
    let mut x = a;
    while x < b && !is_whitespace(cs[x])
        invariant
            a <= x <= b <= cs@.len(),
            next_ws(cs@, x as int, b as int) == next_ws(cs@, a as int, b as int),
        decreases b - x,
    {
        x = x + 1;
    }
    x
}

/// The byte offset of character `k` of `s`.
pub open spec fn byte_at(s: Seq<char>, k: int) -> int {
    enc(s.take(k)).len() as int
}

/// The first index at or after `i` and before `b` whose character is not `c`, or `b`.
pub open spec fn run_end(s: Seq<char>, b: int, c: char, i: int) -> int
    decreases b - i,
{
    if 0 <= i < b && s[i] == c {
        run_end(s, b, c, i + 1)
    } else {
        i
    }
}

pub proof fn lemma_run_end(s: Seq<char>, b: int, c: char, i: int)
    requires
        0 <= i <= b,
    ensures
        i <= run_end(s, b, c, i) <= b,
    decreases b - i,
{
    if i < b && s[i] == c {
        lemma_run_end(s, b, c, i + 1);
    }
}

pub fn run_end_exec(cs: &Vec<char>, b: usize, c: char, i: usize) -> (r: usize)
    requires
        i <= b <= cs@.len(),
    ensures
        r == run_end(cs@, b as int, c, i as int),
        i <= r <= b,
{
    let mut k = i;
    while k < b && cs[k] == c
        invariant
            i <= k <= b <= cs@.len(),
            run_end(cs@, b as int, c, k as int) == run_end(cs@, b as int, c, i as int),
        decreases b - k,
    {
        k = k + 1;
    }
    k
}

/// Whether `pat` occurs at `k` within the first `b` characters of `cs`.
pub fn window_match(cs: &Vec<char>, b: usize, k: usize, pat: &Vec<char>) -> (r: bool)
    requires
        b <= cs@.len(),
    ensures
        r == match_at(cs@.take(b as int), k as int, pat@),
{
    let ghost w = cs@.take(b as int);
    if k > b || pat.len() > b - k {
        return false;
    }
    let mut j: usize = 0;
    while j < pat.len()
        invariant
            k + pat@.len() <= b <= cs@.len(),
            w == cs@.take(b as int),
            j <= pat@.len(),
            forall|t: int| 0 <= t < j ==> cs@[k + t] == pat@[t],
        decreases pat@.len() - j,
    {
        if cs[k + j] != pat[j] {
            proof {
                assert(w.skip(k as int).take(pat@.len() as int)[j as int] == cs@[k + j]);
            }
            return false;
        }
        j = j + 1;
    }
    proof {
        assert(w.skip(k as int).take(pat@.len() as int) =~= pat@);
    }
    true
}

/// The first occurrence of `pat` at or after `from` within the first `b` characters of `cs`.
pub fn window_find(cs: &Vec<char>, b: usize, from: usize, pat: &Vec<char>) -> (r: Option<usize>)
    requires
        from <= b <= cs@.len(),
    ensures
        r matches Some(k) ==> find_after(cs@.take(b as int), from as int, pat@) == Some(k as int),
        r is None ==> find_after(cs@.take(b as int), from as int, pat@) is None,
{
    let ghost w = cs@.take(b as int);
    proof {
        lemma_find_after(w, from as int, pat@);
    }
    let mut k = from;
    while k <= b && pat.len() <= b - k
        invariant
            from <= k <= b,
            b <= cs@.len(),
            w == cs@.take(b as int),
            forall|t: int| from <= t < k ==> !#[trigger] match_at(w, t, pat@),
        decreases b - k,
    {
        if window_match(cs, b, k, pat) {
            proof {
                lemma_find_after(w, from as int, pat@);
            }
            return Some(k);
        }
        if k == b {
            proof {
                lemma_find_after(w, from as int, pat@);
                assert forall|t: int| from <= t implies !#[trigger] match_at(w, t, pat@) by {
                    if t > k {
                        assert(t > w.len());
                    }
                }
            }
            return None;
        }
        k = k + 1;
    }
    proof {
        lemma_find_after(w, from as int, pat@);
        assert forall|t: int| from <= t implies !#[trigger] match_at(w, t, pat@) by {
            if t >= k {
                assert(t + pat@.len() > w.len());
            }
        }
    }
    None
}

/// The encoding of a non-empty sequence starts with that of its first character.
pub proof fn lemma_enc_first(s: Seq<char>)
    requires
        s.len() > 0,
    ensures
        enc(s) == encode_scalar(s[0] as u32) + enc(s.drop_first()),
        length_of_first_scalar(enc(s)) == encode_scalar(s[0] as u32).len(),
        pop_first_scalar(enc(s)) == enc(s.drop_first()),
        encode_scalar(s[0] as u32).len() > 0,
{
    encode_utf8_first_scalar(s);
    assert(pop_first_scalar(enc(s)) =~= enc(s.drop_first()));
    char_is_scalar(s[0]);
}

/// The byte offset of every character index is a character boundary.
pub proof fn lemma_byte_at_boundary(s: Seq<char>, a: int)
    requires
        0 <= a <= s.len(),
    ensures
        is_char_boundary(enc(s), byte_at(s, a)),
        0 <= byte_at(s, a) <= enc(s).len(),
    decreases a,
{
    if a == 0 {
        assert(s.take(0) =~= Seq::<char>::empty());
    } else {
        lemma_enc_first(s);
        lemma_byte_at_boundary(s.drop_first(), a - 1);
        assert(s.take(a).drop_first() =~= s.drop_first().take(a - 1));
        lemma_enc_first(s.take(a));
        assert(s.take(a)[0] == s[0]);
        lemma_enc_concat(s.take(a), s.skip(a));
        assert(s.take(a) + s.skip(a) =~= s);
    }
}

/// Every character boundary of the encoding is the byte offset of a character index.
pub proof fn lemma_boundary_char(s: Seq<char>, k: int)
    requires
        is_char_boundary(enc(s), k),
    ensures
        exists|a: int| 0 <= a <= s.len() && #[trigger] byte_at(s, a) == k,
    decreases s.len(),
{
    if k == 0 {
        assert(s.take(0) =~= Seq::<char>::empty());
        assert(byte_at(s, 0) == 0);
    } else {
        if s.len() == 0 {
            assert(enc(s) =~= Seq::<u8>::empty());
        } else {
            lemma_enc_first(s);
            let w = encode_scalar(s[0] as u32).len() as int;
            lemma_boundary_char(s.drop_first(), k - w);
            let a = choose|a: int| 0 <= a <= s.drop_first().len() && #[trigger] byte_at(s.drop_first(), a) == k - w;
            assert(s.take(a + 1).drop_first() =~= s.drop_first().take(a));
            lemma_enc_first(s.take(a + 1));
            assert(s.take(a + 1)[0] == s[0]);
            assert(byte_at(s, a + 1) == k);
        }
    }
}

/// Byte offsets grow strictly with the character index.
pub proof fn lemma_byte_at_mono(s: Seq<char>, a: int, b: int)
    requires
        0 <= a < b <= s.len(),
    ensures
        byte_at(s, a) < byte_at(s, b),
{
    lemma_enc_concat(s.take(a), s.subrange(a, b));
    assert(s.take(a) + s.subrange(a, b) =~= s.take(b));
    lemma_enc_first(s.subrange(a, b));
}

/// Whether two character vectors hold the same characters.
pub fn vec_eq(a: &Vec<char>, b: &Vec<char>) -> (r: bool)
    ensures
        r == (a@ == b@),
{
    if a.len() != b.len() {
        return false;
    }
    let mut i: usize = 0;
    while i < a.len()
        invariant
            a@.len() == b@.len(),
            i <= a@.len(),
            forall|k: int| 0 <= k < i ==> a@[k] == b@[k],
        decreases a@.len() - i,
    {
        if a[i] != b[i] {
            return false;
        }
        i = i + 1;
    }
    proof {
        assert(a@ =~= b@);
    }
    true
}

/// The ASCII lowercase form of a character.
pub open spec fn lower_ascii(c: char) -> char {
    if 'A' <= c <= 'Z' {
        ((c as u32) + 32) as char
    } else {
        c
    }
}

/// The ASCII lowercase form of a character sequence.
pub open spec fn lower_ascii_seq(s: Seq<char>) -> Seq<char> {
    s.map_values(|c: char| lower_ascii(c))
}

/// The ASCII lowercase form of a character, as `char::to_ascii_lowercase`
/// gives it: `'A'..='Z'` become `'a'..='z'`, every other character stays.
pub fn to_ascii_lower_char(c: char) -> (r: char)
    ensures
        r == lower_ascii(c),
{
    if 'A' <= c && c <= 'Z' {
        let b: u8 = (c as u8) + 32;
        b as char
    } else {
        c
    }
}

/// The ASCII-lowercased characters `a..b` of `cs`.
pub fn lower_ascii_range(cs: &Vec<char>, a: usize, b: usize) -> (r: Vec<char>)
    requires
        a <= b <= cs@.len(),
    ensures
        r@ == lower_ascii_seq(cs@.subrange(a as int, b as int)),
{
    let mut r: Vec<char> = Vec::new();
    let mut i = a;
    while i < b
        invariant
            a <= i <= b <= cs@.len(),
            r@ == lower_ascii_seq(cs@.subrange(a as int, i as int)),
        decreases b - i,
    {
        r.push(to_ascii_lower_char(cs[i]));
        proof {
            assert(r@ =~= lower_ascii_seq(cs@.subrange(a as int, i + 1)));
        }
        i = i + 1;
    }
    r
}

/// A string holding exactly the given characters.
pub fn string_from_chars(cs: &Vec<char>) -> (r: String)
    ensures
        r@ == cs@,
{
    let r = string_of(cs, 0, cs.len());
    proof {
        assert(cs@.subrange(0, cs@.len() as int) =~= cs@);
    }
    r
}

/// The index of the first `c` in `s`.
pub open spec fn index_of(s: Seq<char>, c: char) -> Option<int>
    decreases s.len(),
{
    if s.len() == 0 {
        None
    } else if s[0] == c {
        Some(0)
    } else {
        match index_of(s.drop_first(), c) {
            Some(i) => Some(i + 1),
            None => None,
        }
    }
}

pub proof fn lemma_index_of(s: Seq<char>, c: char)
    ensures
        index_of(s, c) matches Some(i) ==> 0 <= i < s.len() && s[i] == c && forall|k: int| 0 <= k < i ==> s[k] != c,
        index_of(s, c) is None ==> forall|k: int| 0 <= k < s.len() ==> s[k] != c,
    decreases s.len(),
{
    if s.len() > 0 {
        lemma_index_of(s.drop_first(), c);
        assert forall|k: int| 1 <= k < s.len() implies s[k] == s.drop_first()[k - 1] by {}
    }
}

/// The index (into `cs`) of the first `c` among characters `a..b`.
pub fn index_of_in(cs: &Vec<char>, a: usize, b: usize, c: char) -> (r: Option<usize>)
    requires
        a <= b <= cs@.len(),
    ensures
        r matches Some(i) ==> a <= i < b && cs@[i as int] == c
            && index_of(cs@.subrange(a as int, b as int), c) == Some(i - a),
        r is None ==> index_of(cs@.subrange(a as int, b as int), c) is None,
{
    let mut k = a;
    while k < b
        invariant
            a <= k <= b <= cs@.len(),
            forall|t: int| a <= t < k ==> cs@[t] != c,
        decreases b - k,
    {
        if cs[k] == c {
            proof {
                lemma_index_of(cs@.subrange(a as int, b as int), c);
                let s = cs@.subrange(a as int, b as int);
                match index_of(s, c) {
                    Some(i) => {
                        if i < k - a {
                            assert(s[i] == cs@[a + i]);
                        } else if i > k - a {
                            assert(s[k - a] == c);
                        }
                    },
                    None => {
                        assert(s[k - a] == c);
                    },
                }
            }
            return Some(k);
        }
        k = k + 1;
    }
    proof {
        lemma_index_of(cs@.subrange(a as int, b as int), c);
        let s = cs@.subrange(a as int, b as int);
        if let Some(i) = index_of(s, c) {
            assert(s[i] == cs@[a + i]);
        }
    }
    None
}

/// Whether `needle` occurs in `hay`.
pub open spec fn contains_seq(hay: Seq<char>, needle: Seq<char>) -> bool {
    exists|k: int| #[trigger] match_at(hay, k, needle)
}

/// Whether `needle` occurs in `hay`.
pub fn contains_text(hay: &str, needle: &str) -> (b: bool)
    ensures
        b == contains_seq(hay@, needle@),
{
    let h = chars_of(hay);
    let n = chars_of(needle);
    match find_from(&h, 0, &n) {
        Some(_) => true,
        None => {
            proof {
                assert forall|k: int| !#[trigger] match_at(hay@, k, needle@) by {
                    if k < 0 {
                    }
                }
            }
            false
        },
    }
}

/// The Unicode lowercase mapping of a string, as `str::to_lowercase` computes it.
pub uninterp spec fn lowercase(s: Seq<char>) -> Seq<char>;

/// `str::to_lowercase`: the Unicode lowercase form of the string.
#[verifier::external_body]
pub fn to_lowercase(s: &str) -> (r: String)
    ensures
        r@ == lowercase(s@),
{
    s.to_lowercase()
}

/// The general category Cc (control codes): U+0000..=U+001F and U+007F..=U+009F.
pub open spec fn is_control(c: char) -> bool {
    (c as u32) <= 0x1f || (0x7f <= (c as u32) && (c as u32) <= 0x9f)
}

/// Whether the character is in general category Cc, as `char::is_control` tells.
pub fn char_is_control(c: char) -> (b: bool)
    ensures
        b == is_control(c),
{
    let u = c as u32;
    u <= 0x1f || (0x7f <= u && u <= 0x9f)
}

/// The number of bytes of the character's UTF-8 encoding, as `char::len_utf8` gives it.
pub fn char_len_utf8(c: char) -> (n: usize)
    ensures
        n == enc(seq![c]).len(),
{
    proof {
        assert(seq![c].drop_first() =~= Seq::<char>::empty());
        assert(seq![c][0] == c);
        assert(encode_utf8(Seq::<char>::empty()) =~= Seq::<u8>::empty());
        assert(enc(seq![c]) =~= vstd::utf8::encode_scalar(c as u32));
    }
    let u = c as u32;
    if u <= 0x7f {
        1
    } else if u <= 0x7ff {
        2
    } else if u <= 0xffff {
        3
    } else {
        4
    }
}

/// The byte offset of each character of `s`, followed by the length of `s`:
/// entry `i` is the length of the encoding of the first `i` characters.
pub fn char_offsets(s: &str, cs: &Vec<char>) -> (offs: Vec<usize>)
    requires
        cs@ == s@,
    ensures
        offs@.len() == cs@.len() + 1,
        forall|i: int| 0 <= i <= cs@.len() ==> #[trigger] offs@[i] == enc(cs@.take(i)).len(),
        offs@[cs@.len() as int] == s.spec_bytes().len(),
{
    let total = s.as_bytes().len();
    let mut offs: Vec<usize> = Vec::new();
    offs.push(0);
    proof {
        assert(cs@.take(0) =~= Seq::<char>::empty());
    }
    let mut i: usize = 0;
    let mut at: usize = 0;
    while i < cs.len()
        invariant
            i <= cs@.len(),
            cs@ == s@,
            total == enc(s@).len(),
            offs@.len() == i + 1,
            at == enc(cs@.take(i as int)).len(),
            forall|k: int| 0 <= k <= i ==> #[trigger] offs@[k] == enc(cs@.take(k)).len(),
        decreases cs@.len() - i,
    {
        let w = char_len_utf8(cs[i]);
        proof {
            lemma_enc_concat(cs@.take(i as int), seq![cs@[i as int]]);
            assert(cs@.take(i as int) + seq![cs@[i as int]] =~= cs@.take(i + 1));
            lemma_enc_concat(cs@.take(i + 1), cs@.skip(i + 1));
            assert(cs@.take(i + 1) + cs@.skip(i + 1) =~= cs@);
        }
        at = at + w;
        offs.push(at);
        i = i + 1;
    }
    proof {
        assert(cs@.take(cs@.len() as int) =~= cs@);
    }
    offs
}

/// Whether `needle` occurs in `hay`.
pub fn contains_chars(hay: &Vec<char>, needle: &Vec<char>) -> (r: bool)
    ensures
        r == contains_seq(hay@, needle@),
{
    match find_from(hay, 0, needle) {
        Some(_) => true,
        None => {
            proof {
                assert forall|k: int| !#[trigger] match_at(hay@, k, needle@) by {
                    if k < 0 {
                    }
                }
            }
            false
        },
    }
}

// ---------------------------------------------------------------- lines

/// The end of the line starting at `p`: past its line feed, or the end of `s`.
pub open spec fn line_end(s: Seq<char>, p: int) -> int {
    match find_after(s, p, seq!['\n']) {
        Some(k) => k + 1,
        None => s.len() as int,
    }
}

/// The end of the text of line `p..e`: before its line feed and a carriage return that precedes it.
pub open spec fn line_stop(s: Seq<char>, p: int, e: int) -> int {
    if p < e && s[e - 1] == '\n' {
        if p < e - 1 && s[e - 2] == '\r' {
            e - 2
        } else {
            e - 1
        }
    } else {
        e
    }
}

/// The lines of `s` from index `p`, as `str::lines` yields them.
pub open spec fn text_lines(s: Seq<char>, p: int) -> Seq<Seq<char>>
    decreases s.len() - p,
{
    if p < 0 || p >= s.len() {
        Seq::empty()
    } else {
        proof {
            lemma_find_after(s, p, seq!['\n']);
        }
        seq![s.subrange(p, line_stop(s, p, line_end(s, p)))] + text_lines(s, line_end(s, p))
    }
}

/// Every line takes at least one character.
pub proof fn lemma_text_lines_len(s: Seq<char>, p: int)
    requires
        0 <= p <= s.len(),
    ensures
        text_lines(s, p).len() <= s.len() - p,
    decreases s.len() - p,
{
    if p < s.len() {
        lemma_find_after(s, p, seq!['\n']);
        lemma_text_lines_len(s, line_end(s, p));
    }
}

/// The next line of `cs` from index `p`, as (text end, line end).
pub fn next_line(cs: &Vec<char>, nl: &Vec<char>, p: usize) -> (r: Option<(usize, usize)>)
    requires
        p <= cs@.len(),
        nl@ == seq!['\n'],
    ensures
        r is None ==> p == cs@.len(),
        r matches Some((t, e)) ==> p <= t <= e <= cs@.len() && p < e
            && text_lines(cs@, p as int) == seq![cs@.subrange(p as int, t as int)] + text_lines(cs@, e as int),
{
    let n = cs.len();
    if p == n {
        return None;
    }
    let e = match find_next(cs, p, nl) {
        Some(k) => {
            proof {
                lemma_find_after(cs@, p as int, nl@);
            }
            k + 1
        },
        None => n,
    };
    let t = if e > p && cs[e - 1] == '\n' {
        if e - 1 > p && cs[e - 2] == '\r' {
            e - 2
        } else {
            e - 1
        }
    } else {
        e
    };
    Some((t, e))
}

} // verus!
