//! Finding the JSON in what a language model answered.
//!
//! Models wrap JSON in prose or in Markdown fences, write curly quotes, leave
//! trailing commas and stop before they have closed what they opened. The
//! functions here turn an answer into the texts that are worth reading as JSON,
//! in the order in which they are tried.

use crate::json::{json_of_text, parse, Json, JsonTree};
use crate::text::{chars, find, found, string_of, texts, trim, trimmed};
use vstd::prelude::*;

verus! {

// Strings inside JSON ----------------------------------------------------

/// Where a position of a JSON text stands with respect to its string literals.
pub ghost enum Quote {
    Outside,
    Inside,
    /// Inside, right behind a backslash.
    Escaped,
}

/// The state behind the character `c`.
pub open spec fn quote_step(q: Quote, c: char) -> Quote {
    match q {
        Quote::Outside => if c == '"' {
            Quote::Inside
        } else {
            Quote::Outside
        },
        Quote::Inside => if c == '\\' {
            Quote::Escaped
        } else if c == '"' {
            Quote::Outside
        } else {
            Quote::Inside
        },
        Quote::Escaped => Quote::Inside,
    }
}

/// The state behind the first `n` characters.
pub open spec fn quote_at(t: Seq<char>, n: int) -> Quote
    decreases n,
{
    if n <= 0 {
        Quote::Outside
    } else {
        quote_step(quote_at(t, n - 1), t[n - 1])
    }
}

/// Whether the character at `i` is `c` and no part of a string literal.
pub open spec fn structural(t: Seq<char>, i: int, c: char) -> bool {
    0 <= i < t.len() && quote_at(t, i) is Outside && t[i] == c
}

/// The two flags by which a scan holds the state.
pub open spec fn quote_flags(q: Quote, in_string: bool, escaped: bool) -> bool {
    &&& in_string == !(q is Outside)
    &&& escaped == (q is Escaped)
}

/// The flags behind the character `c`.
fn advance_quote(in_string: bool, escaped: bool, c: char) -> (r: (bool, bool))
    ensures
        forall|q: Quote|
            quote_flags(q, in_string, escaped) ==> #[trigger] quote_flags(quote_step(q, c), r.0, r.1),
{
    if in_string {
        if escaped {
            (true, false)
        } else if c == '\\' {
            (true, true)
        } else if c == '"' {
            (false, false)
        } else {
            (true, false)
        }
    } else if c == '"' {
        (true, false)
    } else {
        (false, false)
    }
}

pub proof fn lemma_quote_prefix(t: Seq<char>, u: Seq<char>, n: int)
    requires
        n <= t.len(),
        n <= u.len(),
        forall|i: int| 0 <= i < n ==> t[i] == u[i],
    ensures
        quote_at(t, n) == quote_at(u, n),
    decreases n,
{
    if n > 0 {
        lemma_quote_prefix(t, u, n - 1);
    }
}

// Balanced values --------------------------------------------------------

/// How many `open` are not yet matched by a `close` in the first `n` characters.
/// A `close` that matches nothing does not count.
pub open spec fn depth_at(t: Seq<char>, open: char, close: char, n: int) -> nat
    decreases n,
{
    if n <= 0 {
        0
    } else {
        let d = depth_at(t, open, close, n - 1);
        if structural(t, n - 1, open) {
            d + 1
        } else if structural(t, n - 1, close) && d > 0 {
            (d - 1) as nat
        } else {
            d
        }
    }
}

/// Whether the character at `e` closes the outermost value.
pub open spec fn closes(t: Seq<char>, open: char, close: char, e: int) -> bool {
    structural(t, e, close) && depth_at(t, open, close, e) == 1
}

/// Whether the first value that is closed is closed at `e`.
pub open spec fn closes_first(t: Seq<char>, open: char, close: char, e: int) -> bool {
    closes(t, open, close, e) && forall|k: int| 0 <= k < e ==> !closes(t, open, close, k)
}

/// Whether the first `open` stands at `s`.
pub open spec fn opens_first(t: Seq<char>, open: char, s: int) -> bool {
    structural(t, s, open) && forall|k: int| 0 <= k < s ==> !structural(t, k, open)
}

/// The text from the first `open` to the `close` that matches it.
pub open spec fn balanced(t: Seq<char>, open: char, close: char) -> Option<Seq<char>> {
    if exists|e: int| closes(t, open, close, e) {
        let s = choose|s: int| opens_first(t, open, s);
        let e = choose|e: int| closes_first(t, open, close, e);
        Some(t.subrange(s, e + 1))
    } else {
        None
    }
}

proof fn lemma_balanced(t: Seq<char>, open: char, close: char, s: int, e: int)
    requires
        opens_first(t, open, s),
        closes_first(t, open, close, e),
    ensures
        balanced(t, open, close) == Some(t.subrange(s, e + 1)),
{
    let s2 = choose|s2: int| opens_first(t, open, s2);
    let e2 = choose|e2: int| closes_first(t, open, close, e2);
    assert(opens_first(t, open, s2));
    assert(closes_first(t, open, close, e2));
    if s2 < s {
        assert(!structural(t, s2, open));
    }
    if s < s2 {
        assert(!structural(t, s, open));
    }
    if e2 < e {
        assert(!closes(t, open, close, e2));
    }
    if e < e2 {
        assert(!closes(t, open, close, e));
    }
}

/// The positions of the first `open` and of the `close` that matches it.
fn balanced_span(v: &Vec<char>, open: char, close: char) -> (r: Option<(usize, usize)>)
    requires
        open != close,
        open != '"',
        close != '"',
    ensures
        match r {
            Some((s, e)) => s <= e < v@.len() && opens_first(v@, open, s as int) && closes_first(
                v@,
                open,
                close,
                e as int,
            ),
            None => forall|e: int| !closes(v@, open, close, e),
        },
{
    let mut start: Option<usize> = None;
    let mut depth: usize = 0;
    let mut in_string = false;
    let mut escaped = false;
    let mut i: usize = 0;
    while i < v.len()
        invariant
            open != close,
            open != '"',
            close != '"',
            i <= v@.len(),
            depth <= i,
            depth == depth_at(v@, open, close, i as int),
            quote_flags(quote_at(v@, i as int), in_string, escaped),
            match start {
                Some(s) => s < i && opens_first(v@, open, s as int),
                None => depth == 0 && forall|k: int| 0 <= k < i ==> !structural(v@, k, open),
            },
            forall|k: int| 0 <= k < i ==> !closes(v@, open, close, k),
        decreases v@.len() - i,
    {
        let c = v[i];
        if !in_string {
            if c == open {
                if start.is_none() {
                    start = Some(i);
                }
                depth = depth + 1;
            } else if c == close {
                if depth > 0 {
                    depth = depth - 1;
                    if depth == 0 {
                        match start {
                            Some(s) => {
                                return Some((s, i));
                            },
                            None => {},
                        }
                    }
                }
            }
        }
        let flags = advance_quote(in_string, escaped, c);
        assert(quote_at(v@, i + 1) == quote_step(quote_at(v@, i as int), c));
        assert(quote_flags(quote_step(quote_at(v@, i as int), c), flags.0, flags.1));
        in_string = flags.0;
        escaped = flags.1;
        i = i + 1;
    }
    None
}

/// The first balanced JSON object in `text`, from its `{` to its `}`.
pub fn extract_balanced_json_object(text: &str) -> (r: Option<&str>)
    ensures
        match r {
            Some(s) => balanced(text@, '{', '}') == Some(s@),
            None => balanced(text@, '{', '}') is None,
        },
{
    let v = chars(text);
    match balanced_span(&v, '{', '}') {
        Some((s, e)) => {
            proof {
                lemma_balanced(text@, '{', '}', s as int, e as int);
            }
            Some(text.substring_char(s, e + 1))
        },
        None => None,
    }
}

/// The first balanced object of the text, or else its first balanced array.
pub open spec fn balanced_value(t: Seq<char>) -> Option<Seq<char>> {
    match balanced(t, '{', '}') {
        Some(s) => Some(s),
        None => balanced(t, '[', ']'),
    }
}

/// The first balanced JSON object in `text`, or else its first balanced array.
pub fn extract_balanced_json_value(text: &str) -> (r: Option<&str>)
    ensures
        match r {
            Some(s) => balanced_value(text@) == Some(s@),
            None => balanced_value(text@) is None,
        },
{
    match extract_balanced_json_object(text) {
        Some(s) => {
            return Some(s);
        },
        None => {},
    }
    let v = chars(text);
    match balanced_span(&v, '[', ']') {
        Some((s, e)) => {
            proof {
                lemma_balanced(text@, '[', ']', s as int, e as int);
            }
            Some(text.substring_char(s, e + 1))
        },
        None => None,
    }
}

/// What is extracted begins with the opening character, ends with the closing
/// one, and closes what it opens at its very end and not before.
pub proof fn extracted_value_is_balanced(t: Seq<char>, open: char, close: char)
    requires
        open != close,
        open != '"',
        close != '"',
        balanced(t, open, close) is Some,
    ensures
        ({
            let r = balanced(t, open, close)->0;
            &&& r.len() >= 2
            &&& r[0] == open
            &&& r.last() == close
            &&& quote_at(r, r.len() as int) is Outside
            &&& depth_at(r, open, close, r.len() as int) == 0
            &&& forall|n: int| 0 < n < r.len() ==> #[trigger] depth_at(r, open, close, n) > 0
        }),
{
    let e0 = choose|e: int| closes(t, open, close, e);
    lemma_first_close(t, open, close, e0);
    let e = choose|e: int| closes_first(t, open, close, e);
    assert(closes_first(t, open, close, e));
    lemma_depth_needs_open(t, open, close, e);
    let k0 = choose|k: int| 0 <= k < e && structural(t, k, open);
    lemma_first_open(t, open, k0);
    let s = choose|s: int| opens_first(t, open, s);
    assert(opens_first(t, open, s));
    if s > k0 {
        assert(!structural(t, k0, open));
    }
    lemma_balanced(t, open, close, s, e);
    let r = t.subrange(s, e + 1);
    lemma_depth_before_open(t, open, close, s);
    assert forall|n: int| 0 <= n <= r.len() implies #[trigger] quote_at(r, n) == quote_at(t, s + n)
        && depth_at(r, open, close, n) == depth_at(t, open, close, s + n) by {
        lemma_shifted(t, open, close, s, e, n);
    }
    assert forall|n: int| 0 < n < r.len() implies #[trigger] depth_at(r, open, close, n) > 0 by {
        assert(quote_at(r, n) == quote_at(t, s + n));
        lemma_depth_stays_positive(t, open, close, s, e, s + n);
    }
    assert(quote_at(r, r.len() as int) == quote_at(t, s + r.len()));
    assert(depth_at(t, open, close, e + 1) == 0);
    assert(quote_at(t, e + 1) == quote_step(quote_at(t, e), t[e]));
}

proof fn lemma_first_close(t: Seq<char>, open: char, close: char, e: int)
    requires
        closes(t, open, close, e),
    ensures
        exists|f: int| closes_first(t, open, close, f),
    decreases e,
{
    if exists|k: int| 0 <= k < e && closes(t, open, close, k) {
        let k = choose|k: int| 0 <= k < e && closes(t, open, close, k);
        lemma_first_close(t, open, close, k);
    } else {
        assert(closes_first(t, open, close, e));
    }
}

proof fn lemma_first_open(t: Seq<char>, open: char, s: int)
    requires
        structural(t, s, open),
    ensures
        exists|f: int| opens_first(t, open, f),
    decreases s,
{
    if exists|k: int| 0 <= k < s && structural(t, k, open) {
        let k = choose|k: int| 0 <= k < s && structural(t, k, open);
        lemma_first_open(t, open, k);
    } else {
        assert(opens_first(t, open, s));
    }
}

proof fn lemma_depth_needs_open(t: Seq<char>, open: char, close: char, n: int)
    requires
        depth_at(t, open, close, n) > 0,
    ensures
        exists|k: int| 0 <= k < n && structural(t, k, open),
    decreases n,
{
    if n > 0 {
        if structural(t, n - 1, open) {
        } else {
            lemma_depth_needs_open(t, open, close, n - 1);
        }
    }
}

proof fn lemma_depth_before_open(t: Seq<char>, open: char, close: char, s: int)
    requires
        opens_first(t, open, s),
    ensures
        depth_at(t, open, close, s) == 0,
{
    if depth_at(t, open, close, s) > 0 {
        lemma_depth_needs_open(t, open, close, s);
    }
}

proof fn lemma_shifted(t: Seq<char>, open: char, close: char, s: int, e: int, n: int)
    requires
        0 <= s <= e < t.len(),
        0 <= n <= e + 1 - s,
        quote_at(t, s) is Outside,
        depth_at(t, open, close, s) == 0,
    ensures
        quote_at(t.subrange(s, e + 1), n) == quote_at(t, s + n),
        depth_at(t.subrange(s, e + 1), open, close, n) == depth_at(t, open, close, s + n),
    decreases n,
{
    if n > 0 {
        lemma_shifted(t, open, close, s, e, n - 1);
        assert(t.subrange(s, e + 1)[n - 1] == t[s + n - 1]);
    }
}

proof fn lemma_depth_stays_positive(t: Seq<char>, open: char, close: char, s: int, e: int, n: int)
    requires
        open != close,
        opens_first(t, open, s),
        closes_first(t, open, close, e),
        s < n <= e,
    ensures
        depth_at(t, open, close, n) > 0,
    decreases n,
{
    lemma_depth_before_open(t, open, close, s);
    if n > s + 1 {
        lemma_depth_stays_positive(t, open, close, s, e, n - 1);
        assert(!closes(t, open, close, n - 1));
    }
}

// Common mistakes --------------------------------------------------------

/// A curly quote as the straight quote that it stands for; any other character
/// itself.
pub open spec fn straight(c: char) -> char {
    if c == '\u{201c}' || c == '\u{201d}' || c == '\u{201e}' || c == '\u{201f}' {
        '"'
    } else if c == '\u{2018}' || c == '\u{2019}' || c == '\u{201a}' || c == '\u{201b}' {
        '\''
    } else {
        c
    }
}

fn straighten(c: char) -> (r: char)
    ensures
        r == straight(c),
{
    if c == '\u{201c}' || c == '\u{201d}' || c == '\u{201e}' || c == '\u{201f}' {
        '"'
    } else if c == '\u{2018}' || c == '\u{2019}' || c == '\u{201a}' || c == '\u{201b}' {
        '\''
    } else {
        c
    }
}

/// The white space that JSON allows between its tokens.
pub open spec fn json_blank(c: char) -> bool {
    c == ' ' || c == '\n' || c == '\r' || c == '\t'
}

/// Whether the comma at `i` has nothing but blanks between it and the end of the
/// array or object that it stands in.
pub open spec fn trailing_comma(t: Seq<char>, i: int) -> bool {
    structural(t, i, ',') && exists|j: int|
        i < j < t.len() && (t[j] == ']' || t[j] == '}') && forall|k: int|
            i < k < j ==> json_blank(#[trigger] t[k])
}

/// The first `n` characters without the trailing commas among them.
pub open spec fn without_trailing_commas(t: Seq<char>, n: int) -> Seq<char>
    decreases n,
{
    if n <= 0 {
        Seq::empty()
    } else if trailing_comma(t, n - 1) {
        without_trailing_commas(t, n - 1)
    } else {
        without_trailing_commas(t, n - 1).push(t[n - 1])
    }
}

/// The text with its quotes made straight.
pub open spec fn straightened(t: Seq<char>) -> Seq<char> {
    t.map_values(|c: char| straight(c))
}

/// The text with its quotes made straight and no trailing commas.
pub open spec fn repaired(t: Seq<char>) -> Seq<char> {
    without_trailing_commas(straightened(t), t.len() as int)
}

/// Whether the comma at `i`, which is no part of a string literal, is trailing.
fn comma_is_trailing(v: &Vec<char>, i: usize) -> (r: bool)
    requires
        structural(v@, i as int, ','),
    ensures
        r == trailing_comma(v@, i as int),
{
    assert(i < v.len());
    let mut j: usize = i + 1;
    while j < v.len() && (v[j] == ' ' || v[j] == '\n' || v[j] == '\r' || v[j] == '\t')
        invariant
            i < j <= v@.len(),
            forall|k: int| i < k < j ==> json_blank(#[trigger] v@[k]),
        decreases v@.len() - j,
    {
        j = j + 1;
    }
    if j < v.len() && (v[j] == ']' || v[j] == '}') {
        true
    } else {
        assert forall|m: int|
            i < m < v@.len() && (v@[m] == ']' || v@[m] == '}') implies exists|k: int|
            i < k < m && !json_blank(#[trigger] v@[k]) by {
            if m < j {
                assert(json_blank(v@[m]));
            } else if j < v@.len() {
                assert(!json_blank(v@[j as int]));
            }
        }
        false
    }
}

/// Repairs the mistakes that models make most often: curly quotes become
/// straight ones, and a comma before the end of an array or object is dropped.
pub fn repair_common_json_mistakes(s: &str) -> (r: String)
    ensures
        r@ == repaired(s@),
{
    let v = chars(s);
    let mut b: Vec<char> = Vec::new();
    let mut i: usize = 0;
    while i < v.len()
        invariant
            v@ == s@,
            i <= v@.len(),
            b@ == straightened(s@).take(i as int),
        decreases v@.len() - i,
    {
        b.push(straighten(v[i]));
        assert(b@ =~= straightened(s@).take(i + 1));
        i = i + 1;
    }
    assert(b@ =~= straightened(s@));
    let mut out = String::new();
    let mut in_string = false;
    let mut escaped = false;
    let mut n: usize = 0;
    while n < b.len()
        invariant
            n <= b@.len(),
            quote_flags(quote_at(b@, n as int), in_string, escaped),
            out@ == without_trailing_commas(b@, n as int),
        decreases b@.len() - n,
    {
        let c = b[n];
        let drop_it = if !in_string && c == ',' {
            comma_is_trailing(&b, n)
        } else {
            false
        };
        if !drop_it {
            out.push(c);
        }
        let flags = advance_quote(in_string, escaped, c);
        assert(quote_at(b@, n + 1) == quote_step(quote_at(b@, n as int), c));
        assert(quote_flags(quote_step(quote_at(b@, n as int), c), flags.0, flags.1));
        in_string = flags.0;
        escaped = flags.1;
        n = n + 1;
    }
    out
}

/// A text without curly quotes and trailing commas is left as it is.
pub proof fn repair_keeps_sound_text(t: Seq<char>)
    requires
        forall|i: int| 0 <= i < t.len() ==> straight(#[trigger] t[i]) == t[i],
        forall|i: int| !trailing_comma(t, i),
    ensures
        repaired(t) == t,
{
    assert(straightened(t) =~= t);
    lemma_nothing_trailing(t, t.len() as int);
    assert(t.take(t.len() as int) =~= t);
}

proof fn lemma_nothing_trailing(t: Seq<char>, n: int)
    requires
        0 <= n <= t.len(),
        forall|i: int| !trailing_comma(t, i),
    ensures
        without_trailing_commas(t, n) == t.take(n),
    decreases n,
{
    if n > 0 {
        lemma_nothing_trailing(t, n - 1);
        assert(t.take(n) =~= t.take(n - 1).push(t[n - 1]));
    } else {
        assert(t.take(0) =~= Seq::empty());
    }
}

// Truncated answers ------------------------------------------------------

/// The closing characters that the first `n` characters still owe, the one that
/// is due first standing last.
pub open spec fn owed(t: Seq<char>, n: int) -> Seq<char>
    decreases n,
{
    if n <= 0 {
        Seq::empty()
    } else {
        let p = owed(t, n - 1);
        let c = t[n - 1];
        if !(quote_at(t, n - 1) is Outside) {
            p
        } else if c == '{' {
            p.push('}')
        } else if c == '[' {
            p.push(']')
        } else if (c == '}' || c == ']') && p.len() > 0 && p.last() == c {
            p.drop_last()
        } else {
            p
        }
    }
}

/// The quote that closes a string literal in which the text ends.
pub open spec fn owed_quote(t: Seq<char>) -> Seq<char> {
    if quote_at(t, t.len() as int) is Outside {
        Seq::empty()
    } else {
        seq!['"']
    }
}

/// The text without the backslash of an escape that was cut off.
pub open spec fn without_open_escape(t: Seq<char>) -> Seq<char> {
    if quote_at(t, t.len() as int) is Escaped {
        t.drop_last()
    } else {
        t
    }
}

/// The text without an open escape, followed by all that it owes.
pub open spec fn closed_text(t: Seq<char>) -> Seq<char> {
    without_open_escape(t) + owed_quote(t) + owed(t, t.len() as int).reverse()
}

/// Appends what is needed to close the string, the objects and the arrays that
/// `s` leaves open. A backslash at the end, which would escape the quote that
/// closes the string, is dropped.
pub fn close_unbalanced_json(s: &str) -> (r: String)
    ensures
        r@ == closed_text(s@),
{
    let v = chars(s);
    let mut stack: Vec<char> = Vec::new();
    let mut in_string = false;
    let mut escaped = false;
    let mut i: usize = 0;
    while i < v.len()
        invariant
            v@ == s@,
            i <= v@.len(),
            quote_flags(quote_at(v@, i as int), in_string, escaped),
            stack@ == owed(v@, i as int),
        decreases v@.len() - i,
    {
        let c = v[i];
        if !in_string {
            if c == '{' {
                stack.push('}');
            } else if c == '[' {
                stack.push(']');
            } else if c == '}' || c == ']' {
                if stack.len() > 0 && stack[stack.len() - 1] == c {
                    let _top = stack.pop();
                    assert(stack@ =~= owed(v@, i as int).drop_last());
                }
            }
        }
        let flags = advance_quote(in_string, escaped, c);
        assert(quote_at(v@, i + 1) == quote_step(quote_at(v@, i as int), c));
        assert(quote_flags(quote_step(quote_at(v@, i as int), c), flags.0, flags.1));
        in_string = flags.0;
        escaped = flags.1;
        i = i + 1;
    }
    assert(v@ == s@);
    let end: usize = if escaped {
        v.len() - 1
    } else {
        v.len()
    };
    let mut out = string_of(&v, 0, end);
    assert(out@ =~= without_open_escape(s@));
    if in_string {
        out.push('"');
    }
    let ghost base = out@;
    assert(base =~= without_open_escape(s@) + owed_quote(s@));
    let ghost all = stack@;
    assert(all.subrange(all.len() as int, all.len() as int).reverse() =~= Seq::empty());
    while stack.len() > 0
        invariant
            stack@.len() <= all.len(),
            stack@ == all.take(stack@.len() as int),
            out@ == base + all.skip(stack@.len() as int).reverse(),
        decreases stack@.len(),
    {
        let ghost n = stack@.len();
        match stack.pop() {
            Some(c) => {
                out.push(c);
                assert(c == all[n - 1]);
                assert(stack@ =~= all.take(n - 1));
                assert(all.skip(n - 1).reverse() =~= all.skip(n as int).reverse().push(c));
                assert(out@ =~= base + all.skip(n - 1).reverse());
            },
            None => {},
        }
    }
    assert(all.skip(0) =~= all);
    out
}

/// Every text closes into one that owes nothing: it ends outside of every string,
/// object and array.
pub proof fn closing_balances(t: Seq<char>)
    ensures
        ({
            let r = closed_text(t);
            quote_at(r, r.len() as int) is Outside && owed(r, r.len() as int).len() == 0
        }),
{
    let r = closed_text(t);
    let u = without_open_escape(t);
    let n = u.len() as int;
    let base = u + owed_quote(t);
    let all = owed(t, t.len() as int);
    lemma_quote_prefix(t, r, n);
    lemma_owed_prefix(t, r, n);
    lemma_owed_are_closers(t, t.len() as int);
    assert(owed(t, n) == all);
    assert(!(quote_at(t, n) is Escaped));
    if quote_at(t, n) is Outside {
        assert(base =~= t);
    } else {
        assert(r[n] == '"');
        assert(quote_at(r, n + 1) == quote_step(quote_at(r, n), '"'));
        assert(owed(r, n + 1) == owed(r, n));
    }
    assert(quote_at(r, base.len() as int) is Outside);
    assert(owed(r, base.len() as int) == all);
    assert(all.take(all.len() as int) =~= all);
    lemma_paying(r, base, all, all.len() as int);
}

proof fn lemma_paying(r: Seq<char>, base: Seq<char>, all: Seq<char>, k: int)
    requires
        r == base + all.reverse(),
        0 <= k <= all.len(),
        forall|i: int| 0 <= i < all.len() ==> all[i] == '}' || all[i] == ']',
        quote_at(r, base.len() as int) is Outside,
        owed(r, base.len() as int) == all,
    ensures
        quote_at(r, base.len() + k) is Outside,
        owed(r, base.len() + k) == all.take(all.len() - k),
    decreases k,
{
    if k > 0 {
        lemma_paying(r, base, all, k - 1);
        let n = base.len() + k;
        assert(r[n - 1] == all[all.len() - k]);
        let p = all.take(all.len() - k + 1);
        assert(p.last() == all[all.len() - k]);
        assert(p.drop_last() =~= all.take(all.len() - k));
    } else {
        assert(all.take(all.len() as int) =~= all);
    }
}

proof fn lemma_owed_prefix(t: Seq<char>, u: Seq<char>, n: int)
    requires
        n <= t.len(),
        n <= u.len(),
        forall|i: int| 0 <= i < n ==> t[i] == u[i],
    ensures
        owed(t, n) == owed(u, n),
    decreases n,
{
    if n > 0 {
        lemma_owed_prefix(t, u, n - 1);
        lemma_quote_prefix(t, u, n - 1);
    }
}

proof fn lemma_owed_are_closers(t: Seq<char>, n: int)
    ensures
        forall|i: int| 0 <= i < owed(t, n).len() ==> owed(t, n)[i] == '}' || owed(t, n)[i] == ']',
    decreases n,
{
    if n > 0 {
        lemma_owed_are_closers(t, n - 1);
        let p = owed(t, n - 1);
        assert forall|i: int| 0 <= i < owed(t, n).len() implies owed(t, n)[i] == '}' || owed(t, n)[i]
            == ']' by {
            if i < p.len() {
                assert(p[i] == '}' || p[i] == ']');
            }
        }
    }
}

/// A text that owes nothing is left as it is.
pub proof fn closing_keeps_balanced_text(t: Seq<char>)
    requires
        quote_at(t, t.len() as int) is Outside,
        owed(t, t.len() as int).len() == 0,
    ensures
        closed_text(t) == t,
{
    assert(closed_text(t) =~= t);
}

// Candidates -------------------------------------------------------------

/// What stands between the first `marker` and the next fence behind it.
pub open spec fn fenced(t: Seq<char>, marker: Seq<char>) -> Option<Seq<char>> {
    match found(t, marker) {
        Some(i) => {
            let rest = t.skip(i + marker.len());
            match found(rest, "```"@) {
                Some(e) => Some(trimmed(rest.take(e))),
                None => None,
            }
        },
        None => None,
    }
}

/// What stands between the first `marker` and the next fence behind it, without
/// the white space around it.
pub fn fenced_text(text: &str, marker: &str) -> (r: Option<String>)
    ensures
        match r {
            Some(s) => fenced(text@, marker@) == Some(s@),
            None => fenced(text@, marker@) is None,
        },
{
    let v = chars(text);
    let m = chars(marker);
    match find(text, marker) {
        Some(i) => {
            assert(i + marker@.len() <= v.len());
            let from: usize = i + m.len();
            let rest = string_of(&v, from, v.len());
            assert(rest@ =~= text@.skip(i + marker@.len()));
            match find(rest.as_str(), "```") {
                Some(e) => {
                    let inner = rest.as_str().substring_char(0, e);
                    assert(inner@ =~= rest@.take(e as int));
                    Some(trim(inner).to_owned())
                },
                None => None,
            }
        },
        None => None,
    }
}

/// One text or none, as a list.
pub open spec fn listed(s: Option<Seq<char>>) -> Seq<Seq<char>> {
    match s {
        Some(x) => seq![x],
        None => Seq::empty(),
    }
}

/// What a fence contributes: its contents, and the balanced value in them.
pub open spec fn fence_candidates(t: Seq<char>, marker: Seq<char>) -> Seq<Seq<char>> {
    match fenced(t, marker) {
        Some(f) => seq![f] + listed(balanced_value(f)),
        None => Seq::empty(),
    }
}

/// The texts that are tried as JSON, in their order: the whole answer; what is
/// fenced; the balanced value in the answer; the repaired answer and the
/// balanced value in it; the same once what it leaves open has been closed.
pub open spec fn candidates(t: Seq<char>) -> Seq<Seq<char>> {
    let r = repaired(trimmed(t));
    let c = closed_text(r);
    seq![trimmed(t)] + fence_candidates(t, "```json"@) + fence_candidates(t, "```"@) + listed(
        balanced_value(t),
    ) + seq![r] + listed(balanced_value(r)) + seq![c] + listed(balanced_value(c))
}

fn push_text(out: &mut Vec<String>, s: String)
    ensures
        texts(final(out)@) == texts(old(out)@).push(s@),
{
    proof {
        crate::text::lemma_texts_push(out@, s);
    }
    out.push(s);
}

fn push_balanced(out: &mut Vec<String>, text: &str)
    ensures
        texts(final(out)@) == texts(old(out)@) + listed(balanced_value(text@)),
{
    match extract_balanced_json_value(text) {
        Some(s) => {
            push_text(out, s.to_owned());
            assert(texts(out@) =~= texts(old(out)@) + listed(balanced_value(text@)));
        },
        None => {
            assert(texts(out@) =~= texts(old(out)@) + listed(balanced_value(text@)));
        },
    }
}

fn push_fenced(out: &mut Vec<String>, text: &str, marker: &str)
    ensures
        texts(final(out)@) == texts(old(out)@) + fence_candidates(text@, marker@),
{
    match fenced_text(text, marker) {
        Some(f) => {
            let inner = f.clone();
            push_text(out, f);
            push_balanced(out, inner.as_str());
            assert(texts(out@) =~= texts(old(out)@) + fence_candidates(text@, marker@));
        },
        None => {
            assert(texts(out@) =~= texts(old(out)@) + fence_candidates(text@, marker@));
        },
    }
}

/// The texts that are tried as JSON, in their order.
pub fn json_candidates(text: &str) -> (r: Vec<String>)
    ensures
        texts(r@) == candidates(text@),
{
    let mut out: Vec<String> = Vec::new();
    let whole = trim(text);
    let fixed = repair_common_json_mistakes(whole);
    let closed = close_unbalanced_json(fixed.as_str());
    assert(texts(out@) =~= Seq::empty());
    push_text(&mut out, whole.to_owned());
    push_fenced(&mut out, text, "```json");
    push_fenced(&mut out, text, "```");
    push_balanced(&mut out, text);
    push_text(&mut out, fixed.clone());
    push_balanced(&mut out, fixed.as_str());
    push_text(&mut out, closed.clone());
    push_balanced(&mut out, closed.as_str());
    assert(texts(out@) =~= candidates(text@));
    out
}

/// The first of the texts that is JSON, read.
pub open spec fn first_json(list: Seq<Seq<char>>) -> Option<JsonTree>
    decreases list.len(),
{
    if list.len() == 0 {
        None
    } else {
        match json_of_text(list[0]) {
            Ok(v) => Some(v),
            Err(_) => first_json(list.drop_first()),
        }
    }
}

/// The message for an answer in which no JSON is found.
pub open spec fn no_json_message() -> Seq<char> {
    "no parseable JSON object in model response"@
}

/// Reads the JSON in a model's answer: the first candidate that is JSON.
pub fn parse_json_response(text: &str) -> (r: Result<Json, String>)
    ensures
        match r {
            Ok(v) => first_json(candidates(text@)) == Some(v@),
            Err(m) => first_json(candidates(text@)) is None && m@ == no_json_message(),
        },
{
    let list = json_candidates(text);
    let ghost all = texts(list@);
    let mut i: usize = 0;
    assert(all.skip(0) =~= all);
    while i < list.len()
        invariant
            i <= list@.len(),
            all == texts(list@),
            first_json(all) == first_json(all.skip(i as int)),
            all == candidates(text@),
        decreases list@.len() - i,
    {
        assert(all.skip(i as int)[0] == list@[i as int]@);
        match parse(list[i].as_str()) {
            Ok(v) => {
                return Ok(v);
            },
            Err(_) => {},
        }
        assert(all.skip(i as int).drop_first() =~= all.skip(i + 1));
        i = i + 1;
    }
    Err("no parseable JSON object in model response".to_owned())
}

/// An answer that is JSON but for the white space around it is read as it
/// stands.
pub proof fn sound_json_is_read_as_it_stands(text: Seq<char>, v: JsonTree)
    requires
        json_of_text(trimmed(text)) == Ok::<JsonTree, Seq<char>>(v),
    ensures
        first_json(candidates(text)) == Some(v),
{
    assert(candidates(text)[0] == trimmed(text));
}

/// The curly quotes, and no other characters, are made straight.
pub proof fn curly_quotes_are_straightened(c: char)
    ensures
        straight(c) == if '\u{2018}' <= c <= '\u{201b}' {
            '\''
        } else if '\u{201c}' <= c <= '\u{201f}' {
            '"'
        } else {
            c
        },
{
}

/// A comma is left out exactly if it stands outside strings and nothing but blanks is
/// between it and what closes an array or an object; every other character is kept.
pub proof fn only_trailing_commas_are_left_out(t: Seq<char>)
    ensures
        repaired(t) == Seq::new(t.len(), |i: int| i).filter(
            |i: int|
                !(quote_at(t.map_values(|c: char| straight(c)), i) is Outside && t[i] == ','
                    && exists|j: int|
                    i < j < t.len() && (#[trigger] t[j] == ']' || t[j] == '}') && forall|k: int|
                        i < k < j ==> #[trigger] t[k] == ' ' || t[k] == '\n' || t[k] == '\r' || t[k]
                            == '\t'),
        ).map_values(|i: int| straight(t[i])),
{
    let u = straightened(t);
    let p = |i: int|
        !(quote_at(t.map_values(|c: char| straight(c)), i) is Outside && t[i] == ',' && exists|
            j: int,
        |
            i < j < t.len() && (#[trigger] t[j] == ']' || t[j] == '}') && forall|k: int|
                i < k < j ==> #[trigger] t[k] == ' ' || t[k] == '\n' || t[k] == '\r' || t[k]
                    == '\t');
    assert forall|i: int| 0 <= i < t.len() implies #[trigger] p(i) == !trailing_comma(u, i) by {
        assert(u[i] == straight(t[i]));
        assert(forall|j: int| 0 <= j < t.len() ==> #[trigger] u[j] == straight(t[j]));
        if trailing_comma(u, i) {
            let j = choose|j: int|
                i < j < u.len() && (u[j] == ']' || u[j] == '}') && forall|k: int|
                    i < k < j ==> json_blank(u[k]);
            assert(t[j] == ']' || t[j] == '}');
            assert forall|k: int| i < k < j implies #[trigger] t[k] == ' ' || t[k] == '\n' || t[k]
                == '\r' || t[k] == '\t' by {
                assert(json_blank(u[k]));
            }
        }
        if !p(i) {
            let j = choose|j: int|
                i < j < t.len() && (#[trigger] t[j] == ']' || t[j] == '}') && forall|k: int|
                    i < k < j ==> #[trigger] t[k] == ' ' || t[k] == '\n' || t[k] == '\r' || t[k]
                        == '\t';
            assert(u[j] == ']' || u[j] == '}');
            assert forall|k: int| i < k < j implies json_blank(#[trigger] u[k]) by {
                assert(u[k] == straight(t[k]));
            }
            assert(structural(u, i, ','));
        }
    }
    lemma_left_out(t, p, t.len() as int);
}

proof fn lemma_left_out(t: Seq<char>, p: spec_fn(int) -> bool, n: int)
    requires
        0 <= n <= t.len(),
        forall|i: int| 0 <= i < t.len() ==> #[trigger] p(i) == !trailing_comma(straightened(t), i),
    ensures
        without_trailing_commas(straightened(t), n) == Seq::new(n as nat, |i: int| i).filter(
            p,
        ).map_values(|i: int| straight(t[i])),
    decreases n,
{
    reveal(Seq::filter);
    let all = Seq::new(n as nat, |i: int| i);
    let f = |i: int| straight(t[i]);
    if n > 0 {
        let rest = Seq::new((n - 1) as nat, |i: int| i);
        lemma_left_out(t, p, n - 1);
        assert(all.drop_last() =~= rest);
        assert(all.last() == n - 1);
        assert(p(n - 1) == !trailing_comma(straightened(t), n - 1));
        assert(rest.filter(p).push(n - 1).map_values(f) =~= rest.filter(p).map_values(f).push(
            f(n - 1),
        ));
    } else {
        assert(all.filter(p).map_values(f) =~= Seq::<char>::empty());
    }
}

/// What is read of an answer is the first of the candidates that is JSON.
pub proof fn the_first_json_is_read(list: Seq<Seq<char>>)
    ensures
        first_json(list) is None <==> forall|i: int|
            0 <= i < list.len() ==> json_of_text(#[trigger] list[i]) is Err,
        first_json(list) matches Some(v) ==> exists|k: int|
            0 <= k < list.len() && json_of_text(#[trigger] list[k]) == Ok::<JsonTree, Seq<char>>(v)
                && forall|i: int| 0 <= i < k ==> json_of_text(#[trigger] list[i]) is Err,
    decreases list.len(),
{
    if list.len() > 0 {
        let rest = list.drop_first();
        if json_of_text(list[0]) is Err {
            the_first_json_is_read(rest);
            if first_json(rest) is None {
                assert forall|i: int| 0 <= i < list.len() implies json_of_text(
                    #[trigger] list[i],
                ) is Err by {
                    if i > 0 {
                        assert(rest[i - 1] == list[i]);
                    }
                }
            } else {
                let v = first_json(rest)->0;
                let k = choose|k: int|
                    0 <= k < rest.len() && json_of_text(#[trigger] rest[k]) == Ok::<
                        JsonTree,
                        Seq<char>,
                    >(v) && forall|i: int|
                        0 <= i < k ==> json_of_text(#[trigger] rest[i]) is Err;
                assert(list[k + 1] == rest[k]);
                assert forall|i: int| 0 <= i < k + 1 implies json_of_text(
                    #[trigger] list[i],
                ) is Err by {
                    if i > 0 {
                        assert(rest[i - 1] == list[i]);
                    }
                }
            }
        } else {
            assert(json_of_text(list[0]) is Ok);
        }
    }
}

/// JSON is looked for in the whole answer first, and also in its fences, in the first
/// balanced value, and in all of it after mending and after closing what is open.
pub proof fn json_is_looked_for_everywhere(t: Seq<char>)
    ensures
        candidates(t)[0] == trimmed(t),
        fenced(t, "```json"@) matches Some(f) ==> candidates(t).contains(f),
        fenced(t, "```"@) matches Some(f) ==> candidates(t).contains(f),
        balanced_value(t) matches Some(b) ==> candidates(t).contains(b),
        candidates(t).contains(repaired(trimmed(t))),
        balanced_value(repaired(trimmed(t))) matches Some(b) ==> candidates(t).contains(b),
        candidates(t).contains(closed_text(repaired(trimmed(t)))),
{
    let a = seq![trimmed(t)];
    let b = fence_candidates(t, "```json"@);
    let c = fence_candidates(t, "```"@);
    let d = listed(balanced_value(t));
    let r = repaired(trimmed(t));
    let e = seq![r];
    let f = listed(balanced_value(r));
    let g = seq![closed_text(r)];
    let all = candidates(t);
    if b.len() > 0 {
        assert(all[a.len() as int] == b[0]);
    }
    if c.len() > 0 {
        assert(all[(a.len() + b.len()) as int] == c[0]);
    }
    if d.len() > 0 {
        assert(all[(a.len() + b.len() + c.len()) as int] == d[0]);
    }
    let n = (a.len() + b.len() + c.len() + d.len()) as int;
    assert(all[n] == e[0]);
    if f.len() > 0 {
        assert(all[n + 1] == f[0]);
    }
    assert(all[n + 1 + f.len()] == g[0]);
}

/// A string begins at a quote and ends at the next that no backslash stands before;
/// what a backslash stands before is part of the string, whatever it is.
pub proof fn strings_end_at_the_next_quote(t: Seq<char>, n: int)
    requires
        0 <= n < t.len(),
    ensures
        quote_at(t, 0) is Outside,
        quote_at(t, n) is Outside ==> (quote_at(t, n + 1) is Inside <==> t[n] == '"') && (quote_at(
            t,
            n + 1,
        ) is Outside <==> t[n] != '"'),
        quote_at(t, n) is Inside ==> (quote_at(t, n + 1) is Outside <==> t[n] == '"') && (quote_at(
            t,
            n + 1,
        ) is Escaped <==> t[n] == '\\'),
        quote_at(t, n) is Escaped ==> quote_at(t, n + 1) is Inside,
{
}

} // verus!
