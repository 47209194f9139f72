//! Text as sequences of characters: trimming, searching, replacing, joining,
//! ordering, and the two facts about Unicode that the rest of the crate needs.

use vstd::prelude::*;
use vstd::utf8::*;

verus! {

// Building and comparing -------------------------------------------------

/// `String::push`: the character is added at the end.
pub assume_specification[ std::string::String::push ](s: &mut std::string::String, c: char)
    ensures
        final(s)@ == old(s)@.push(c),
;

/// The contents of a list of strings.
pub open spec fn texts(v: Seq<String>) -> Seq<Seq<char>> {
    v.map_values(|s: String| s@)
}

pub proof fn lemma_texts_push(v: Seq<String>, s: String)
    ensures
        texts(v.push(s)) == texts(v).push(s@),
{
    assert(texts(v.push(s)) =~= texts(v).push(s@));
}

/// The characters of `s`.
pub fn chars(s: &str) -> (r: Vec<char>)
    ensures
        r@ == s@,
{
    let mut out: Vec<char> = Vec::new();
    for c in it: s.chars()
        invariant
            it.seq() == s@,
            out@ == s@.take(it.index() as int),
    {
        assert(s@.take(it.index() + 1) =~= s@.take(it.index() as int).push(c));
        out.push(c);
    }
    assert(s@.take(s@.len() as int) =~= s@);
    out
}

/// The characters `from..to` of `v` as a string.
pub fn string_of(v: &Vec<char>, from: usize, to: usize) -> (r: String)
    requires
        from <= to <= v@.len(),
    ensures
        r@ == v@.subrange(from as int, to as int),
{
    let mut out = String::new();
    let mut i: usize = from;
    while i < to
        invariant
            from <= i <= to <= v@.len(),
            out@ == v@.subrange(from as int, i as int),
        decreases to - i,
    {
        assert(v@.subrange(from as int, i + 1) =~= v@.subrange(from as int, i as int).push(v@[i as int]));
        out.push(v[i]);
        i = i + 1;
    }
    out
}

/// Whether two strings hold the same characters.
pub fn same(a: &str, b: &str) -> (r: bool)
    ensures
        r == (a@ == b@),
{
    let x = a.as_bytes();
    let y = b.as_bytes();
    proof {
        encode_utf8_decode_utf8(a@);
        encode_utf8_decode_utf8(b@);
    }
    if x.len() != y.len() {
        return false;
    }
    let mut i: usize = 0;
    while i < x.len()
        invariant
            i <= x@.len() == y@.len(),
            x@.take(i as int) == y@.take(i as int),
            x@ == encode_utf8(a@),
            y@ == encode_utf8(b@),
        decreases x@.len() - i,
    {
        if x[i] != y[i] {
            return false;
        }
        assert(x@.take(i + 1) =~= x@.take(i as int).push(x@[i as int]));
        assert(y@.take(i + 1) =~= y@.take(i as int).push(y@[i as int]));
        i = i + 1;
    }
    assert(x@.take(i as int) =~= x@);
    assert(y@.take(i as int) =~= y@);
    true
}

/// Whether `v` holds a string with the characters of `s`.
pub fn contains_text(v: &Vec<String>, s: &str) -> (r: bool)
    ensures
        r == texts(v@).contains(s@),
{
    let mut i: usize = 0;
    while i < v.len()
        invariant
            i <= v@.len(),
            forall|j: int| 0 <= j < i ==> (#[trigger] v@[j])@ != s@,
        decreases v@.len() - i,
    {
        if same(v[i].as_str(), s) {
            assert(texts(v@)[i as int] == s@);
            return true;
        }
        i = i + 1;
    }
    assert forall|j: int| 0 <= j < texts(v@).len() implies texts(v@)[j] != s@ by {
        assert(texts(v@)[j] == v@[j]@);
    }
    false
}

/// A copy of `v`.
pub fn clone_texts(v: &Vec<String>) -> (r: Vec<String>)
    ensures
        r@ == v@,
{
    let mut out: Vec<String> = Vec::new();
    let mut i: usize = 0;
    while i < v.len()
        invariant
            i <= v@.len(),
            out@ == v@.take(i as int),
        decreases v@.len() - i,
    {
        assert(v@.take(i + 1) =~= v@.take(i as int).push(v@[i as int]));
        out.push(v[i].clone());
        i = i + 1;
    }
    assert(v@.take(i as int) =~= v@);
    out
}

/// A copy of an optional string.
pub fn clone_text(s: &Option<String>) -> (r: Option<String>)
    ensures
        r == *s,
{
    match s {
        Some(t) => Some(t.clone()),
        None => None,
    }
}

/// The contents of an optional string.
pub open spec fn text_opt(s: Option<String>) -> Option<Seq<char>> {
    match s {
        Some(t) => Some(t@),
        None => None,
    }
}

// Length in bytes --------------------------------------------------------

/// The number of bytes that the text takes in UTF-8.
pub open spec fn bytes_of(s: Seq<char>) -> nat {
    encode_utf8(s).len()
}

/// The bytes of two texts one behind the other are those of the two.
pub proof fn lemma_bytes_concat(a: Seq<char>, b: Seq<char>)
    ensures
        encode_utf8(a + b) == encode_utf8(a) + encode_utf8(b),
        bytes_of(a + b) == bytes_of(a) + bytes_of(b),
    decreases a.len(),
{
    if a.len() == 0 {
        assert(a + b =~= b);
        assert(encode_utf8(a) + encode_utf8(b) =~= encode_utf8(b));
    } else {
        lemma_bytes_concat(a.drop_first(), b);
        assert((a + b).drop_first() =~= a.drop_first() + b);
        assert((a + b)[0] == a[0]);
        assert(encode_utf8(a + b) =~= encode_utf8(a) + encode_utf8(b));
    }
}

/// The length of `s` in bytes.
pub fn byte_len(s: &str) -> (r: usize)
    ensures
        r == bytes_of(s@),
{
    s.as_bytes().len()
}

/// The longest beginning of the text that takes no more than `n` bytes.
pub open spec fn byte_prefix(s: Seq<char>, n: nat) -> Seq<char>
    decreases s.len(),
{
    if s.len() == 0 || bytes_of(s) <= n {
        s
    } else {
        byte_prefix(s.drop_last(), n)
    }
}

fn char_width(c: char) -> (r: usize)
    ensures
        r == bytes_of(seq![c]),
        1 <= r <= 4,
{
    proof {
        reveal_with_fuel(encode_utf8, 2);
        assert(seq![c].drop_first() =~= Seq::<char>::empty());
        assert(encode_utf8(seq![c]) =~= encode_scalar(c as u32));
    }
    if c <= '\u{7f}' {
        1
    } else if c <= '\u{7ff}' {
        2
    } else if c <= '\u{ffff}' {
        3
    } else {
        4
    }
}

proof fn lemma_bytes_take(s: Seq<char>, k: int)
    requires
        0 <= k < s.len(),
    ensures
        bytes_of(s.take(k + 1)) == bytes_of(s.take(k)) + bytes_of(seq![s[k]]),
{
    assert(s.take(k + 1) =~= s.take(k) + seq![s[k]]);
    lemma_bytes_concat(s.take(k), seq![s[k]]);
}

proof fn lemma_bytes_grow(s: Seq<char>, j: int, k: int)
    requires
        0 <= j <= k <= s.len(),
    ensures
        bytes_of(s.take(j)) <= bytes_of(s.take(k)),
    decreases k - j,
{
    if j < k {
        lemma_bytes_grow(s, j, k - 1);
        lemma_bytes_take(s, k - 1);
    }
}

/// A beginning that fits, while one more character would not, is the longest.
proof fn lemma_longest_prefix(s: Seq<char>, k: int, m: int, n: nat)
    requires
        0 <= k <= m <= s.len(),
        bytes_of(s.take(k)) <= n,
        k < s.len() ==> bytes_of(s.take(k + 1)) > n,
    ensures
        byte_prefix(s.take(m), n) == s.take(k),
    decreases m,
{
    if m > k {
        lemma_bytes_grow(s, k + 1, m);
        assert(s.take(m).drop_last() =~= s.take(m - 1));
        lemma_longest_prefix(s, k, m - 1, n);
    }
}

/// The longest beginning of `s` that takes no more than `n` bytes.
pub fn prefix_bytes(s: &str, n: usize) -> (r: String)
    ensures
        r@ == byte_prefix(s@, n as nat),
{
    let v = chars(s);
    let mut used: usize = 0;
    let mut k: usize = 0;
    assert(s@.take(0) =~= Seq::<char>::empty());
    while k < v.len()
        invariant
            v@ == s@,
            k <= v@.len(),
            used == bytes_of(s@.take(k as int)),
            used <= n,
        ensures
            v@ == s@,
            k <= v@.len(),
            bytes_of(s@.take(k as int)) <= n,
            k < s@.len() ==> bytes_of(s@.take(k + 1)) > n,
        decreases v@.len() - k,
    {
        let w: usize = char_width(v[k]);
        proof {
            lemma_bytes_take(s@, k as int);
        }
        if w > n - used {
            break;
        }
        used = used + w;
        k = k + 1;
    }
    proof {
        lemma_longest_prefix(s@, k as int, s@.len() as int, n as nat);
        assert(s@.take(s@.len() as int) =~= s@);
    }
    string_of(&v, 0, k)
}

/// A text is cut behind the byte where it is to be cut if a character ends there,
/// and behind the last character that ends before it if not. What is left is never
/// longer than it may be, and one more character would make it so.
pub proof fn cuts_fall_between_characters(s: Seq<char>, n: nat)
    ensures
        bytes_of(byte_prefix(s, n)) <= n,
        exists|k: int|
            0 <= k <= s.len() && byte_prefix(s, n) == #[trigger] s.take(k) && (k < s.len()
                ==> bytes_of(s.take(k + 1)) > n),
    decreases s.len(),
{
    if s.len() == 0 || bytes_of(s) <= n {
        assert(s.take(s.len() as int) =~= s);
        assert(byte_prefix(s, n) == s.take(s.len() as int));
        if s.len() == 0 {
            assert(encode_utf8(s) =~= Seq::empty());
        }
    } else {
        let t = s.drop_last();
        cuts_fall_between_characters(t, n);
        let k = choose|k: int|
            0 <= k <= t.len() && byte_prefix(t, n) == #[trigger] t.take(k) && (k < t.len()
                ==> bytes_of(t.take(k + 1)) > n);
        assert(t.take(k) =~= s.take(k));
        if k < t.len() {
            assert(t.take(k + 1) =~= s.take(k + 1));
        } else {
            assert(s.take(k + 1) =~= s);
        }
    }
}

// White space ------------------------------------------------------------

/// The Unicode property White_Space.
pub open spec fn is_white_space(c: char) -> bool {
    ||| '\u{9}' <= c <= '\u{d}'
    ||| c == '\u{20}'
    ||| c == '\u{85}'
    ||| c == '\u{a0}'
    ||| c == '\u{1680}'
    ||| '\u{2000}' <= c <= '\u{200a}'
    ||| c == '\u{2028}'
    ||| c == '\u{2029}'
    ||| c == '\u{202f}'
    ||| c == '\u{205f}'
    ||| c == '\u{3000}'
}

/// Whether `c` has the Unicode property White_Space.
pub fn white_space(c: char) -> (r: bool)
    ensures
        r == is_white_space(c),
{
    ('\u{9}' <= c && c <= '\u{d}') || c == '\u{20}' || c == '\u{85}' || c == '\u{a0}' || c
        == '\u{1680}' || ('\u{2000}' <= c && c <= '\u{200a}') || c == '\u{2028}' || c == '\u{2029}'
        || c == '\u{202f}' || c == '\u{205f}' || c == '\u{3000}'
}

/// `s` without the white space that it begins with.
pub open spec fn trimmed_start(s: Seq<char>) -> Seq<char>
    decreases s.len(),
{
    if s.len() > 0 && is_white_space(s[0]) {
        trimmed_start(s.drop_first())
    } else {
        s
    }
}

/// `s` without the white space that it ends with.
pub open spec fn trimmed_end(s: Seq<char>) -> Seq<char>
    decreases s.len(),
{
    if s.len() > 0 && is_white_space(s.last()) {
        trimmed_end(s.drop_last())
    } else {
        s
    }
}

/// `s` without the white space around it.
pub open spec fn trimmed(s: Seq<char>) -> Seq<char> {
    trimmed_end(trimmed_start(s))
}

/// `s` without the white space around it.
pub fn trim<'a>(s: &'a str) -> (r: &'a str)
    ensures
        r@ == trimmed(s@),
{
    let v = chars(s);
    let mut i: usize = 0;
    assert(v@.subrange(0, v@.len() as int) =~= v@);
    while i < v.len() && white_space(v[i])
        invariant
            i <= v@.len(),
            trimmed_start(v@) == trimmed_start(v@.subrange(i as int, v@.len() as int)),
        decreases v@.len() - i,
    {
        assert(v@.subrange(i as int, v@.len() as int).drop_first() =~= v@.subrange(
            i + 1,
            v@.len() as int,
        ));
        i = i + 1;
    }
    let ghost head = v@.subrange(i as int, v@.len() as int);
    assert(trimmed_start(v@) == head);
    let mut j: usize = v.len();
    while j > i && white_space(v[j - 1])
        invariant
            i <= j <= v@.len(),
            head == v@.subrange(i as int, v@.len() as int),
            trimmed_end(head) == trimmed_end(v@.subrange(i as int, j as int)),
        decreases j,
    {
        assert(v@.subrange(i as int, j as int).drop_last() =~= v@.subrange(i as int, j - 1));
        j = j - 1;
    }
    s.substring_char(i, j)
}

/// Whether nothing but white space stands in `s`.
pub fn is_blank(s: &str) -> (r: bool)
    ensures
        r == (trimmed(s@).len() == 0),
{
    let t = trim(s);
    t.is_empty()
}

pub proof fn lemma_trimmed_start_shape(s: Seq<char>)
    ensures
        trimmed_start(s).len() <= s.len(),
        trimmed_start(s) == s.subrange(s.len() - trimmed_start(s).len(), s.len() as int),
        trimmed_start(s).len() > 0 ==> !is_white_space(trimmed_start(s)[0]),
        trimmed_start(s).len() == 0 <==> (forall|i: int|
            0 <= i < s.len() ==> is_white_space(#[trigger] s[i])),
    decreases s.len(),
{
    if s.len() > 0 && is_white_space(s[0]) {
        lemma_trimmed_start_shape(s.drop_first());
        assert(trimmed_start(s) =~= s.subrange(s.len() - trimmed_start(s).len(), s.len() as int));
        if trimmed_start(s).len() == 0 {
            assert forall|i: int| 0 <= i < s.len() implies is_white_space(#[trigger] s[i]) by {
                if i > 0 {
                    assert(is_white_space(s.drop_first()[i - 1]));
                }
            }
        } else {
            let t = s.drop_first();
            let i = choose|i: int| 0 <= i < t.len() && !is_white_space(#[trigger] t[i]);
            assert(!is_white_space(s[i + 1]));
        }
    } else {
        assert(s =~= s.subrange(0, s.len() as int));
    }
}

pub proof fn lemma_trimmed_end_shape(s: Seq<char>)
    ensures
        trimmed_end(s).len() <= s.len(),
        trimmed_end(s) == s.subrange(0, trimmed_end(s).len() as int),
        trimmed_end(s).len() > 0 ==> !is_white_space(trimmed_end(s).last()),
        trimmed_end(s).len() == 0 <==> (forall|i: int|
            0 <= i < s.len() ==> is_white_space(#[trigger] s[i])),
    decreases s.len(),
{
    if s.len() > 0 && is_white_space(s.last()) {
        lemma_trimmed_end_shape(s.drop_last());
        assert(trimmed_end(s) =~= s.subrange(0, trimmed_end(s).len() as int));
        if trimmed_end(s).len() == 0 {
            assert forall|i: int| 0 <= i < s.len() implies is_white_space(#[trigger] s[i]) by {
                if i < s.len() - 1 {
                    assert(is_white_space(s.drop_last()[i]));
                }
            }
        } else {
            let t = s.drop_last();
            let i = choose|i: int| 0 <= i < t.len() && !is_white_space(#[trigger] t[i]);
            assert(!is_white_space(s[i]));
        }
    } else {
        assert(s =~= s.subrange(0, s.len() as int));
    }
}

/// Trimming keeps a run of characters of the text, takes off nothing but white
/// space, and leaves none at either end; trimming again changes nothing.
pub proof fn trimming_is_final(s: Seq<char>)
    ensures
        exists|i: int, j: int|
            0 <= i <= j <= s.len() && trimmed(s) == #[trigger] s.subrange(i, j) && (forall|k: int|
                (0 <= k < i || j <= k < s.len()) ==> is_white_space(#[trigger] s[k])),
        trimmed(s).len() > 0 ==> !is_white_space(trimmed(s)[0]) && !is_white_space(
            trimmed(s).last(),
        ),
        trimmed(trimmed(s)) == trimmed(s),
{
    lemma_trimmed_start_shape(s);
    let h = trimmed_start(s);
    lemma_trimmed_end_shape(h);
    let t = trimmed_end(h);
    let i: int = s.len() - h.len();
    let j: int = i + t.len();
    assert(t =~= s.subrange(i, j));
    lemma_only_white_space_dropped_start(s);
    lemma_only_white_space_dropped_end(h);
    assert forall|k: int| (0 <= k < i || j <= k < s.len()) implies is_white_space(
        #[trigger] s[k],
    ) by {
        if k >= j {
            assert(s[k] == h[k - i]);
        }
    }
    if t.len() > 0 {
        assert(t[0] == h[0]);
    }
}

proof fn lemma_only_white_space_dropped_start(s: Seq<char>)
    ensures
        forall|k: int| 0 <= k < s.len() - trimmed_start(s).len() ==> is_white_space(#[trigger] s[k]),
    decreases s.len(),
{
    if s.len() > 0 && is_white_space(s[0]) {
        let t = s.drop_first();
        lemma_only_white_space_dropped_start(t);
        assert forall|k: int| 0 <= k < s.len() - trimmed_start(s).len() implies is_white_space(
            #[trigger] s[k],
        ) by {
            if k > 0 {
                assert(is_white_space(t[k - 1]));
            }
        }
    }
}

proof fn lemma_only_white_space_dropped_end(s: Seq<char>)
    ensures
        forall|k: int| trimmed_end(s).len() <= k < s.len() ==> is_white_space(#[trigger] s[k]),
    decreases s.len(),
{
    if s.len() > 0 && is_white_space(s.last()) {
        let t = s.drop_last();
        lemma_only_white_space_dropped_end(t);
        assert forall|k: int| trimmed_end(s).len() <= k < s.len() implies is_white_space(
            #[trigger] s[k],
        ) by {
            if k < s.len() - 1 {
                assert(is_white_space(t[k]));
            }
        }
    }
}

// Searching --------------------------------------------------------------

/// Whether `p` stands in `s` at position `i`.
pub open spec fn occurs_at(s: Seq<char>, p: Seq<char>, i: int) -> bool {
    0 <= i && i + p.len() <= s.len() && s.subrange(i, i + p.len()) == p
}

/// Whether `p` stands somewhere in `s`.
pub open spec fn occurs(s: Seq<char>, p: Seq<char>) -> bool {
    exists|i: int| occurs_at(s, p, i)
}

/// Whether `i` is the first position at which `p` stands in `s`.
pub open spec fn occurs_first(s: Seq<char>, p: Seq<char>, i: int) -> bool {
    occurs_at(s, p, i) && forall|j: int| 0 <= j < i ==> !occurs_at(s, p, j)
}

/// The first position at which `p` stands in `s`.
pub open spec fn found(s: Seq<char>, p: Seq<char>) -> Option<int> {
    if occurs(s, p) {
        Some(choose|i: int| occurs_first(s, p, i))
    } else {
        None
    }
}

pub proof fn lemma_found(s: Seq<char>, p: Seq<char>, i: int)
    requires
        occurs_first(s, p, i),
    ensures
        found(s, p) == Some(i),
{
    let k = choose|k: int| occurs_first(s, p, k);
    assert(occurs_first(s, p, k));
    if k < i {
        assert(!occurs_at(s, p, k));
    }
    if i < k {
        assert(!occurs_at(s, p, i));
    }
}

/// Whether `p` stands in `s` at position `i`.
pub fn matches_at(s: &Vec<char>, p: &Vec<char>, i: usize) -> (r: bool)
    requires
        i <= s@.len(),
    ensures
        r == occurs_at(s@, p@, i as int),
{
    if s.len() - i < p.len() {
        return false;
    }
    let mut k: usize = 0;
    while k < p.len()
        invariant
            i + p@.len() <= s@.len() <= usize::MAX,
            k <= p@.len(),
            s@.subrange(i as int, i + k) == p@.take(k as int),
        decreases p@.len() - k,
    {
        if s[i + k] != p[k] {
            assert(s@.subrange(i as int, i + p@.len())[k as int] != p@[k as int]);
            return false;
        }
        assert(s@.subrange(i as int, i + k + 1) =~= s@.subrange(i as int, i + k).push(
            s@[i + k],
        ));
        assert(p@.take(k + 1) =~= p@.take(k as int).push(p@[k as int]));
        k = k + 1;
    }
    assert(p@.take(k as int) =~= p@);
    true
}

/// The first position of `p` in `s`, counted in characters.
pub fn find(s: &str, p: &str) -> (r: Option<usize>)
    ensures
        match r {
            Some(i) => found(s@, p@) == Some(i as int) && occurs_at(s@, p@, i as int),
            None => found(s@, p@) is None,
        },
{
    let v = chars(s);
    let w = chars(p);
    let mut i: usize = 0;
    while i <= v.len()
        invariant
            v@ == s@,
            w@ == p@,
            i <= v@.len() + 1,
            forall|j: int| 0 <= j < i ==> !occurs_at(s@, p@, j),
        decreases v@.len() + 1 - i,
    {
        if matches_at(&v, &w, i) {
            proof {
                lemma_found(s@, p@, i as int);
            }
            return Some(i);
        }
        if i == v.len() {
            assert(forall|j: int| 0 <= j <= s@.len() ==> !occurs_at(s@, p@, j));
            return None;
        }
        i = i + 1;
    }
    None
}

/// Whether `p` stands somewhere in `s`.
pub fn contains(s: &str, p: &str) -> (r: bool)
    ensures
        r == occurs(s@, p@),
{
    find(s, p).is_some()
}

/// Whether `s` begins with `p`.
pub fn starts_with(s: &str, p: &str) -> (r: bool)
    ensures
        r == occurs_at(s@, p@, 0),
{
    let v = chars(s);
    let w = chars(p);
    matches_at(&v, &w, 0)
}

/// `s` with every occurrence of `p`, taken from the left and not overlapping,
/// replaced by `w`.
pub open spec fn replaced(s: Seq<char>, p: Seq<char>, w: Seq<char>) -> Seq<char>
    decreases s.len(),
{
    if s.len() == 0 || p.len() == 0 {
        s
    } else if occurs_at(s, p, 0) {
        w + replaced(s.skip(p.len() as int), p, w)
    } else {
        seq![s[0]] + replaced(s.drop_first(), p, w)
    }
}

/// Replaces every occurrence of `p`, which must not be empty, by `w`.
pub fn replace(s: &str, p: &str, w: &str) -> (r: String)
    requires
        p@.len() > 0,
    ensures
        r@ == replaced(s@, p@, w@),
{
    let v = chars(s);
    let q = chars(p);
    let mut out = String::new();
    let mut i: usize = 0;
    assert(v@.skip(0) =~= v@);
    assert(out@ + replaced(v@.skip(0), p@, w@) =~= replaced(s@, p@, w@));
    while i < v.len()
        invariant
            v@ == s@,
            q@ == p@,
            p@.len() > 0,
            i <= v@.len(),
            out@ + replaced(v@.skip(i as int), p@, w@) == replaced(s@, p@, w@),
        decreases v@.len() - i,
    {
        let ghost rest = v@.skip(i as int);
        let ghost before = out@;
        if matches_at(&v, &q, i) {
            assert(rest.subrange(0, p@.len() as int) =~= v@.subrange(i as int, i + p@.len()));
            assert(rest.skip(p@.len() as int) =~= v@.skip(i + p@.len()));
            out.append(w);
            i = i + q.len();
            assert(out@ + replaced(v@.skip(i as int), p@, w@) =~= before + replaced(rest, p@, w@));
        } else {
            assert(!occurs_at(rest, p@, 0)) by {
                if occurs_at(rest, p@, 0) {
                    assert(v@.subrange(i as int, i + p@.len()) =~= rest.subrange(0, p@.len() as int));
                }
            }
            assert(rest.drop_first() =~= v@.skip(i + 1));
            out.push(v[i]);
            i = i + 1;
            assert(out@ + replaced(v@.skip(i as int), p@, w@) =~= before + replaced(rest, p@, w@));
        }
    }
    assert(v@.skip(i as int).len() == 0);
    assert(out@ + replaced(v@.skip(i as int), p@, w@) =~= out@);
    out
}

/// A text in which `p` does not occur is left as it is.
pub proof fn replacing_what_is_absent_changes_nothing(s: Seq<char>, p: Seq<char>, w: Seq<char>)
    requires
        !occurs(s, p),
    ensures
        replaced(s, p, w) == s,
    decreases s.len(),
{
    if s.len() > 0 && p.len() > 0 {
        let t = s.drop_first();
        assert(!occurs_at(s, p, 0));
        assert forall|i: int| !occurs_at(t, p, i) by {
            if occurs_at(t, p, i) {
                assert(s.subrange(i + 1, i + 1 + p.len()) =~= t.subrange(i, i + p.len()));
                assert(occurs_at(s, p, i + 1));
            }
        }
        replacing_what_is_absent_changes_nothing(t, p, w);
        assert(seq![s[0]] + t =~= s);
    }
}

/// `s` without the characters `c` that it ends with.
pub open spec fn trimmed_end_of(s: Seq<char>, c: char) -> Seq<char>
    decreases s.len(),
{
    if s.len() > 0 && s.last() == c {
        trimmed_end_of(s.drop_last(), c)
    } else {
        s
    }
}

/// `s` without the characters `c` that it ends with.
pub fn trim_end_of<'a>(s: &'a str, c: char) -> (r: &'a str)
    ensures
        r@ == trimmed_end_of(s@, c),
{
    let v = chars(s);
    let mut j: usize = v.len();
    assert(v@.subrange(0, j as int) =~= v@);
    while j > 0 && v[j - 1] == c
        invariant
            j <= v@.len(),
            v@ == s@,
            trimmed_end_of(s@, c) == trimmed_end_of(v@.subrange(0, j as int), c),
        decreases j,
    {
        assert(v@.subrange(0, j as int).drop_last() =~= v@.subrange(0, j - 1));
        j = j - 1;
    }
    s.substring_char(0, j)
}

/// The result never ends in `c`.
pub proof fn lemma_trimmed_end_of(s: Seq<char>, c: char)
    ensures
        trimmed_end_of(s, c).len() <= s.len(),
        trimmed_end_of(s, c) == s.subrange(0, trimmed_end_of(s, c).len() as int),
        trimmed_end_of(s, c).len() > 0 ==> trimmed_end_of(s, c).last() != c,
    decreases s.len(),
{
    if s.len() > 0 && s.last() == c {
        lemma_trimmed_end_of(s.drop_last(), c);
        assert(trimmed_end_of(s, c) =~= s.subrange(0, trimmed_end_of(s, c).len() as int));
    } else {
        assert(s =~= s.subrange(0, s.len() as int));
    }
}

// Joining and printing ---------------------------------------------------

/// The parts with `sep` between them.
pub open spec fn joined(parts: Seq<Seq<char>>, sep: Seq<char>) -> Seq<char>
    decreases parts.len(),
{
    if parts.len() == 0 {
        Seq::empty()
    } else if parts.len() == 1 {
        parts[0]
    } else {
        joined(parts.drop_last(), sep) + sep + parts.last()
    }
}

/// The strings of `parts` with `sep` between them.
pub fn join(parts: &Vec<String>, sep: &str) -> (r: String)
    ensures
        r@ == joined(texts(parts@), sep@),
{
    let mut out = String::new();
    let mut i: usize = 0;
    assert(texts(parts@).take(0) =~= Seq::empty());
    while i < parts.len()
        invariant
            i <= parts@.len(),
            out@ == joined(texts(parts@).take(i as int), sep@),
        decreases parts@.len() - i,
    {
        if i > 0 {
            out.append(sep);
        }
        out.append(parts[i].as_str());
        let ghost next = texts(parts@).take(i + 1);
        assert(next.drop_last() =~= texts(parts@).take(i as int));
        assert(next.last() == parts@[i as int]@);
        if i == 0 {
            assert(out@ =~= next[0]);
        }
        i = i + 1;
    }
    assert(texts(parts@).take(i as int) =~= texts(parts@));
    out
}

/// A decimal digit.
pub open spec fn digit(d: nat) -> char {
    ('0' as nat + d) as char
}

/// The number in decimal notation.
pub open spec fn decimal(n: nat) -> Seq<char>
    decreases n,
{
    if n < 10 {
        seq![digit(n)]
    } else {
        decimal(n / 10).push(digit(n % 10))
    }
}

/// The number in decimal notation.
pub fn print_decimal(n: u64) -> (r: String)
    ensures
        r@ == decimal(n as nat),
    decreases n,
{
    let c: char = (48u8 + (n % 10) as u8) as char;
    if n < 10 {
        let mut out = String::new();
        out.push(c);
        assert(out@ =~= seq![digit(n as nat)]);
        out
    } else {
        let mut out = print_decimal(n / 10);
        out.push(c);
        out
    }
}

// Ordering ---------------------------------------------------------------

/// Whether `a` stands before `b` in the order of strings, which compares the
/// code points from the left.
pub open spec fn lex_lt(a: Seq<char>, b: Seq<char>) -> bool
    decreases a.len(),
{
    if b.len() == 0 {
        false
    } else if a.len() == 0 {
        true
    } else {
        a[0] < b[0] || (a[0] == b[0] && lex_lt(a.drop_first(), b.drop_first()))
    }
}

/// Whether `a` stands before `b`.
pub fn text_lt(a: &str, b: &str) -> (r: bool)
    ensures
        r == lex_lt(a@, b@),
{
    let v = chars(a);
    let w = chars(b);
    let mut i: usize = 0;
    assert(v@.skip(0) =~= v@);
    assert(w@.skip(0) =~= w@);
    while i < v.len() && i < w.len()
        invariant
            i <= v@.len(),
            i <= w@.len(),
            v@ == a@,
            w@ == b@,
            lex_lt(v@, w@) == lex_lt(v@.skip(i as int), w@.skip(i as int)),
        decreases v@.len() - i,
    {
        if v[i] < w[i] {
            return true;
        }
        if w[i] < v[i] {
            return false;
        }
        assert(v@.skip(i as int).drop_first() =~= v@.skip(i + 1));
        assert(w@.skip(i as int).drop_first() =~= w@.skip(i + 1));
        i = i + 1;
    }
    i < w.len()
}

pub proof fn lemma_lex_irreflexive(a: Seq<char>)
    ensures
        !lex_lt(a, a),
    decreases a.len(),
{
    if a.len() > 0 {
        lemma_lex_irreflexive(a.drop_first());
    }
}

pub proof fn lemma_lex_transitive(a: Seq<char>, b: Seq<char>, c: Seq<char>)
    requires
        lex_lt(a, b),
        lex_lt(b, c),
    ensures
        lex_lt(a, c),
    decreases a.len(),
{
    if a.len() > 0 && a[0] == b[0] && b[0] == c[0] {
        lemma_lex_transitive(a.drop_first(), b.drop_first(), c.drop_first());
    }
}

pub proof fn lemma_lex_total(a: Seq<char>, b: Seq<char>)
    ensures
        a == b || lex_lt(a, b) || lex_lt(b, a),
    decreases a.len(),
{
    if a.len() > 0 && b.len() > 0 && a[0] == b[0] {
        lemma_lex_total(a.drop_first(), b.drop_first());
        if a.drop_first() == b.drop_first() {
            assert(a =~= seq![a[0]] + a.drop_first());
            assert(b =~= seq![b[0]] + b.drop_first());
        }
    } else if a.len() == 0 && b.len() == 0 {
        assert(a =~= b);
    }
}

/// Texts are in the order of their first difference: what has the smaller character
/// there comes first, and what ends there comes first.
pub proof fn texts_are_ordered_by_their_first_difference(a: Seq<char>, b: Seq<char>, i: int)
    requires
        0 <= i <= a.len(),
        i < b.len(),
        a.take(i) == b.take(i),
        i == a.len() || a[i] < b[i],
    ensures
        lex_lt(a, b),
        !lex_lt(b, a),
    decreases i,
{
    if i > 0 {
        let c = a.drop_first();
        let d = b.drop_first();
        assert(a[0] == a.take(i)[0] && b[0] == b.take(i)[0]);
        assert(c.take(i - 1) =~= a.take(i).drop_first());
        assert(d.take(i - 1) =~= b.take(i).drop_first());
        texts_are_ordered_by_their_first_difference(c, d, i - 1);
    }
}

// Unicode tables ---------------------------------------------------------

/// Whether the character is a letter or a number, as Unicode has it.
pub uninterp spec fn alphanumeric(c: char) -> bool;

/// Whether the character is an ASCII letter or digit.
pub open spec fn ascii_alphanumeric(c: char) -> bool {
    '0' <= c <= '9' || 'A' <= c <= 'Z' || 'a' <= c <= 'z'
}

/// `char::is_alphanumeric`. The result depends on the character alone. Of an
/// ASCII character it holds exactly for the letters and digits; of any other
/// character nothing is said but that the answer is always the same.
#[verifier::external_body]
fn is_alphanumeric(c: char) -> (r: bool)
    ensures
        r == alphanumeric(c),
        c < '\u{80}' ==> r == ascii_alphanumeric(c),
{
    c.is_alphanumeric()
}

/// Whether the character is a letter or a digit: of ASCII those that everyone
/// knows, of the rest those that Unicode has.
pub open spec fn letter_or_digit(c: char) -> bool {
    if c >= '\u{80}' {
        alphanumeric(c)
    } else {
        ascii_alphanumeric(c)
    }
}

/// Whether the character is a letter or a digit.
pub fn is_letter_or_digit(c: char) -> (r: bool)
    ensures
        r == letter_or_digit(c),
{
    is_alphanumeric(c)
}

/// The text in lower case, as Unicode has it.
pub uninterp spec fn lowercase(s: Seq<char>) -> Seq<char>;

/// The ASCII letter in lower case; any other character itself.
pub open spec fn ascii_lower(c: char) -> char {
    if 'A' <= c <= 'Z' {
        (c as u32 + 32) as char
    } else {
        c
    }
}

/// `str::to_lowercase`. The result depends on the text alone. A text of ASCII
/// characters has each letter `A` to `Z` turned into its lower case and is
/// otherwise kept; of other texts nothing is said but that the answer is always
/// the same.
#[verifier::external_body]
fn to_lowercase(s: &str) -> (r: String)
    ensures
        r@ == lowercase(s@),
        is_ascii_chars(s@) ==> r@ == s@.map_values(|c: char| ascii_lower(c)),
{
    s.to_lowercase()
}

/// The text in lower case: ASCII text letter by letter, other text as Unicode
/// has it.
pub open spec fn lowered(s: Seq<char>) -> Seq<char> {
    if is_ascii_chars(s) {
        s.map_values(|c: char| ascii_lower(c))
    } else {
        lowercase(s)
    }
}

/// The text in lower case.
pub fn lower(s: &str) -> (r: String)
    ensures
        r@ == lowered(s@),
{
    to_lowercase(s)
}

// Laws -------------------------------------------------------------------

/// The characters that Unicode calls white space, by their numbers.
pub proof fn white_space_is_listed(c: char)
    ensures
        is_white_space(c) <==> {
            let n = c as u32;
            ||| n == 9 || n == 10 || n == 11 || n == 12 || n == 13 || n == 32 || n == 133
            ||| n == 160 || n == 5760 || (8192 <= n && n <= 8202) || n == 8232 || n == 8233
            ||| n == 8239 || n == 8287 || n == 12288
        },
{
}

/// Texts are joined one after the other, with the separator between each two.
pub proof fn joining_goes_on(a: Seq<Seq<char>>, b: Seq<Seq<char>>, sep: Seq<char>)
    requires
        a.len() > 0,
        b.len() > 0,
    ensures
        joined(a + b, sep) == joined(a, sep) + sep + joined(b, sep),
        a.len() == 1 ==> joined(a, sep) == a[0],
    decreases b.len(),
{
    let all = a + b;
    assert(all.drop_last() =~= a + b.drop_last());
    assert(all.last() == b.last());
    if b.len() == 1 {
        assert(a + b.drop_last() =~= a);
    } else {
        joining_goes_on(a, b.drop_last(), sep);
        assert(joined(a, sep) + sep + joined(b.drop_last(), sep) + sep + b.last() =~= joined(a, sep)
            + sep + (joined(b.drop_last(), sep) + sep + b.last()));
    }
}

/// The first place at which a text stands is replaced, and after it the rest; what is
/// before stays.
pub proof fn the_first_place_is_replaced(s: Seq<char>, p: Seq<char>, w: Seq<char>, i: int)
    requires
        p.len() > 0,
        occurs_first(s, p, i),
    ensures
        replaced(s, p, w) == s.take(i) + w + replaced(s.skip(i + p.len()), p, w),
    decreases s.len(),
{
    if i == 0 {
        assert(s.take(0) + w =~= w);
    } else {
        let t = s.drop_first();
        assert(!occurs_at(s, p, 0));
        assert(s.subrange(i, i + p.len()) =~= t.subrange(i - 1, i - 1 + p.len()));
        assert forall|j: int| 0 <= j < i - 1 implies !occurs_at(t, p, j) by {
            if occurs_at(t, p, j) {
                assert(s.subrange(j + 1, j + 1 + p.len()) =~= t.subrange(j, j + p.len()));
                assert(occurs_at(s, p, j + 1));
            }
        }
        the_first_place_is_replaced(t, p, w, i - 1);
        assert(t.skip(i - 1 + p.len()) =~= s.skip(i + p.len()));
        assert(seq![s[0]] + (t.take(i - 1) + w + replaced(s.skip(i + p.len()), p, w)) =~= s.take(i)
            + w + replaced(s.skip(i + p.len()), p, w));
    }
}

/// A number is written with one digit more than its tenth, unless it has only one, and
/// the digits count up from nought.
pub proof fn numbers_are_written_in_tens(n: nat, d: nat)
    requires
        d < 10,
    ensures
        n > 0 ==> decimal(10 * n + d) == decimal(n) + decimal(d),
        decimal(d).len() == 1,
        decimal(d)[0] as u32 == 48 + d,
{
    if n > 0 {
        assert((10 * n + d) / 10 == n);
        assert((10 * n + d) % 10 == d);
        assert(decimal(n).push(digit(d)) =~= decimal(n) + decimal(d));
    }
}

} // verus!
