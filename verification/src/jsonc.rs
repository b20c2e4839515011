//! JSON with comments and trailing commas, blanked into plain JSON of the same length.
use vstd::prelude::*;

verus! {

pub open spec fn is_space_byte(c: u8) -> bool {
    c == 0x20 || c == 0x09 || c == 0x0a || c == 0x0c || c == 0x0d
}

/// `n` spaces.
pub open spec fn spaces(n: nat) -> Seq<u8> {
    Seq::new(n, |k: int| 0x20u8)
}

/// The first index at or after `i` holding a newline, or the length.
pub open spec fn line_end(b: Seq<u8>, i: int) -> int
    decreases b.len() - i,
{
    if i >= b.len() {
        b.len() as int
    } else if b[i] == 0x0a {
        i
    } else {
        line_end(b, i + 1)
    }
}

/// The first index at or after `i` where `*/` starts, or the length.
pub open spec fn block_end(b: Seq<u8>, i: int) -> int
    decreases b.len() - i,
{
    if i + 1 >= b.len() {
        b.len() as int
    } else if b[i] == 0x2a && b[i + 1] == 0x2f {
        i
    } else {
        block_end(b, i + 1)
    }
}

pub proof fn lemma_line_end(b: Seq<u8>, i: int)
    requires
        0 <= i <= b.len(),
    ensures
        i <= line_end(b, i) <= b.len(),
        line_end(b, i) < b.len() ==> b[line_end(b, i)] == 0x0a,
    decreases b.len() - i,
{
    if i < b.len() && b[i] != 0x0a {
        lemma_line_end(b, i + 1);
    }
}

pub proof fn lemma_block_end(b: Seq<u8>, i: int)
    requires
        0 <= i <= b.len(),
    ensures
        i <= block_end(b, i) <= b.len(),
        block_end(b, i) + 1 < b.len() ==> b[block_end(b, i)] == 0x2a && b[block_end(b, i) + 1] == 0x2f,
    decreases b.len() - i,
{
    if i + 1 < b.len() && !(b[i] == 0x2a && b[i + 1] == 0x2f) {
        lemma_block_end(b, i + 1);
    }
}

/// The text from `i` on with every comment blanked; `quoted` tells whether `i` lies
/// inside a string.
pub open spec fn strip_comments(b: Seq<u8>, i: int, quoted: bool) -> Seq<u8>
    decreases b.len() - i, 0int,
{
    if i < 0 || i >= b.len() {
        Seq::empty()
    } else if quoted {
        if b[i] == 0x5c {
            if i + 1 < b.len() {
                seq![b[i], b[i + 1]] + strip_comments(b, i + 2, true)
            } else {
                seq![b[i]]
            }
        } else if b[i] == 0x22 {
            seq![b[i]] + strip_comments(b, i + 1, false)
        } else {
            seq![b[i]] + strip_comments(b, i + 1, true)
        }
    } else if b[i] == 0x22 {
        seq![b[i]] + strip_comments(b, i + 1, true)
    } else if i + 1 < b.len() && b[i] == 0x2f && b[i + 1] == 0x2f {
        let j = line_end(b, i);
        proof {
            lemma_line_end(b, i);
        }
        if j > i {
            spaces((j - i) as nat) + strip_comments(b, j, false)
        } else {
            Seq::empty()
        }
    } else if i + 1 < b.len() && b[i] == 0x2f && b[i + 1] == 0x2a {
        let j = block_end(b, i + 2);
        proof {
            lemma_block_end(b, i + 2);
        }
        if j + 1 < b.len() {
            spaces((j + 2 - i) as nat) + strip_comments(b, j + 2, false)
        } else {
            spaces((b.len() - i) as nat)
        }
    } else {
        seq![b[i]] + strip_comments(b, i + 1, false)
    }
}

/// The first byte at or after `j` that is not ASCII whitespace.
pub open spec fn next_solid(b: Seq<u8>, j: int) -> Option<u8>
    decreases b.len() - j,
{
    if j < 0 || j >= b.len() {
        None
    } else if is_space_byte(b[j]) {
        next_solid(b, j + 1)
    } else {
        Some(b[j])
    }
}

/// The text from `i` on with every comma outside strings that closes a list or object
/// (only whitespace before `}` or `]`) blanked.
pub open spec fn strip_commas(b: Seq<u8>, i: int, quoted: bool) -> Seq<u8>
    decreases b.len() - i,
{
    if i < 0 || i >= b.len() {
        Seq::empty()
    } else if quoted {
        if b[i] == 0x5c {
            if i + 1 < b.len() {
                seq![b[i], b[i + 1]] + strip_commas(b, i + 2, true)
            } else {
                seq![b[i]]
            }
        } else if b[i] == 0x22 {
            seq![b[i]] + strip_commas(b, i + 1, false)
        } else {
            seq![b[i]] + strip_commas(b, i + 1, true)
        }
    } else if b[i] == 0x22 {
        seq![b[i]] + strip_commas(b, i + 1, true)
    } else if b[i] == 0x2c && (next_solid(b, i + 1) == Some(0x7du8) || next_solid(b, i + 1) == Some(
        0x5du8,
    )) {
        seq![0x20u8] + strip_commas(b, i + 1, false)
    } else {
        seq![b[i]] + strip_commas(b, i + 1, false)
    }
}

/// `r` has the bytes of `b` from `i` on, each kept or turned into a space.
pub open spec fn blanked_from(b: Seq<u8>, i: int, r: Seq<u8>) -> bool {
    &&& r.len() == b.len() - i
    &&& forall|k: int| 0 <= k < r.len() ==> #[trigger] r[k] == b[i + k] || r[k] == 0x20
}

proof fn lemma_blanked_concat(b: Seq<u8>, i: int, p: Seq<u8>, rest: Seq<u8>)
    requires
        0 <= i,
        i + p.len() <= b.len(),
        forall|k: int| 0 <= k < p.len() ==> #[trigger] p[k] == b[i + k] || p[k] == 0x20,
        blanked_from(b, i + p.len(), rest),
    ensures
        blanked_from(b, i, p + rest),
{
    let r = p + rest;
    assert forall|k: int| 0 <= k < r.len() implies #[trigger] r[k] == b[i + k] || r[k] == 0x20 by {
        if k >= p.len() {
            assert(r[k] == rest[k - p.len()]);
            assert(rest[k - p.len()] == b[i + p.len() + (k - p.len())] || rest[k - p.len()] == 0x20);
        }
    }
}

proof fn lemma_comments_blank(b: Seq<u8>, i: int, quoted: bool)
    requires
        0 <= i <= b.len(),
    ensures
        blanked_from(b, i, strip_comments(b, i, quoted)),
    decreases b.len() - i, 0int,
{
    if i < b.len() {
        if quoted {
            if b[i] == 0x5c {
                if i + 1 < b.len() {
                    lemma_comments_blank(b, i + 2, true);
                    lemma_blanked_concat(b, i, seq![b[i], b[i + 1]], strip_comments(b, i + 2, true));
                }
            } else if b[i] == 0x22 {
                lemma_comments_blank(b, i + 1, false);
                lemma_blanked_concat(b, i, seq![b[i]], strip_comments(b, i + 1, false));
            } else {
                lemma_comments_blank(b, i + 1, true);
                lemma_blanked_concat(b, i, seq![b[i]], strip_comments(b, i + 1, true));
            }
        } else if b[i] == 0x22 {
            lemma_comments_blank(b, i + 1, true);
            lemma_blanked_concat(b, i, seq![b[i]], strip_comments(b, i + 1, true));
        } else if i + 1 < b.len() && b[i] == 0x2f && b[i + 1] == 0x2f {
            lemma_line_end(b, i);
            let j = line_end(b, i);
            if j > i {
                lemma_comments_blank(b, j, false);
                lemma_blanked_concat(b, i, spaces((j - i) as nat), strip_comments(b, j, false));
            }
        } else if i + 1 < b.len() && b[i] == 0x2f && b[i + 1] == 0x2a {
            lemma_block_end(b, i + 2);
            let j = block_end(b, i + 2);
            if j + 1 < b.len() {
                lemma_comments_blank(b, j + 2, false);
                lemma_blanked_concat(b, i, spaces((j + 2 - i) as nat), strip_comments(b, j + 2, false));
            }
        } else {
            lemma_comments_blank(b, i + 1, false);
            lemma_blanked_concat(b, i, seq![b[i]], strip_comments(b, i + 1, false));
        }
    }
}

proof fn lemma_commas_blank(b: Seq<u8>, i: int, quoted: bool)
    requires
        0 <= i <= b.len(),
    ensures
        blanked_from(b, i, strip_commas(b, i, quoted)),
    decreases b.len() - i,
{
    if i < b.len() {
        if quoted {
            if b[i] == 0x5c {
                if i + 1 < b.len() {
                    lemma_commas_blank(b, i + 2, true);
                    lemma_blanked_concat(b, i, seq![b[i], b[i + 1]], strip_commas(b, i + 2, true));
                }
            } else if b[i] == 0x22 {
                lemma_commas_blank(b, i + 1, false);
                lemma_blanked_concat(b, i, seq![b[i]], strip_commas(b, i + 1, false));
            } else {
                lemma_commas_blank(b, i + 1, true);
                lemma_blanked_concat(b, i, seq![b[i]], strip_commas(b, i + 1, true));
            }
        } else if b[i] == 0x22 {
            lemma_commas_blank(b, i + 1, true);
            lemma_blanked_concat(b, i, seq![b[i]], strip_commas(b, i + 1, true));
        } else if b[i] == 0x2c && (next_solid(b, i + 1) == Some(0x7du8) || next_solid(b, i + 1) == Some(0x5du8)) {
            lemma_commas_blank(b, i + 1, false);
            lemma_blanked_concat(b, i, seq![0x20u8], strip_commas(b, i + 1, false));
        } else {
            lemma_commas_blank(b, i + 1, false);
            lemma_blanked_concat(b, i, seq![b[i]], strip_commas(b, i + 1, false));
        }
    }
}

/// Cleaning keeps the text's length and every byte, except that comment bytes and
/// closing commas become spaces: positions (and so error locations) do not move.
pub proof fn lemma_cleaned_blanks_only(raw: Seq<u8>)
    ensures
        cleaned(raw).len() == raw.len(),
        forall|k: int| 0 <= k < raw.len() ==> #[trigger] cleaned(raw)[k] == raw[k] || cleaned(raw)[k] == 0x20,
{
    lemma_comments_blank(raw, 0, false);
    let mid = strip_comments(raw, 0, false);
    lemma_commas_blank(mid, 0, false);
    assert forall|k: int| 0 <= k < raw.len() implies #[trigger] cleaned(raw)[k] == raw[k] || cleaned(raw)[k] == 0x20 by {
        assert(cleaned(raw)[k] == mid[0 + k] || cleaned(raw)[k] == 0x20);
        assert(mid[k] == raw[0 + k] || mid[k] == 0x20);
    }
}

/// How many double quotes `b` holds before position `j`.
pub open spec fn quotes_before(b: Seq<u8>, j: int) -> nat
    decreases j,
{
    if j <= 0 {
        0
    } else {
        quotes_before(b, j - 1) + if b[j - 1] == 0x22 {
            1nat
        } else {
            0nat
        }
    }
}

/// `b` before `n` holds no backslash, and each `/` there lies inside a string (after an
/// odd number of double quotes): plain JSON text whose strings may hold slashes.
pub open spec fn plain_before(b: Seq<u8>, n: int) -> bool {
    forall|j: int| 0 <= j < n ==> #[trigger] b[j] != 0x5c && (b[j] == 0x2f ==> quotes_before(b, j) % 2 == 1)
}

proof fn lemma_quotes_agree(b: Seq<u8>, c: Seq<u8>, n: int, j: int)
    requires
        0 <= j <= n <= b.len(),
        n <= c.len(),
        forall|t: int| 0 <= t < n ==> b[t] == c[t],
    ensures
        quotes_before(b, j) == quotes_before(c, j),
    decreases j,
{
    if j > 0 {
        lemma_quotes_agree(b, c, n, j - 1);
    }
}

/// Comment stripping copies a plain prefix byte for byte.
proof fn lemma_comments_copy(b: Seq<u8>, s: int, n: int)
    requires
        0 <= s <= n <= b.len(),
        plain_before(b, n),
    ensures
        forall|j: int| s <= j < n ==> strip_comments(b, s, quotes_before(b, s) % 2 == 1)[j - s] == #[trigger] b[j],
    decreases n - s,
{
    if s < n {
        lemma_comments_copy(b, s + 1, n);
        assert(quotes_before(b, s + 1) == quotes_before(b, s) + if b[s] == 0x22 { 1nat } else { 0nat });
        assert(b[s] != 0x5c);
        let q = quotes_before(b, s) % 2 == 1;
        let q2 = quotes_before(b, s + 1) % 2 == 1;
        let rest = strip_comments(b, s + 1, q2);
        lemma_comments_blank(b, s + 1, q2);
        assert(strip_comments(b, s, q) == seq![b[s]] + rest);
        assert forall|j: int| s <= j < n implies strip_comments(b, s, q)[j - s] == #[trigger] b[j] by {
            if j > s {
                assert(strip_comments(b, s, q)[j - s] == rest[j - (s + 1)]);
            }
        }
    }
}

/// What comma stripping puts at `i` of a plain prefix: a space for a comma outside
/// strings whose next solid byte closes a list or object, else the byte itself.
proof fn lemma_commas_at(m: Seq<u8>, s: int, i: int)
    requires
        0 <= s <= i < m.len(),
        plain_before(m, i),
    ensures
        strip_commas(m, s, quotes_before(m, s) % 2 == 1)[i - s] == if m[i] == 0x2c && quotes_before(m, i) % 2 == 0
            && (next_solid(m, i + 1) == Some(0x7du8) || next_solid(m, i + 1) == Some(0x5du8)) {
            0x20u8
        } else {
            m[i]
        },
    decreases i - s,
{
    let q = quotes_before(m, s) % 2 == 1;
    lemma_commas_blank(m, s + 1, quotes_before(m, s + 1) % 2 == 1);
    assert(quotes_before(m, s + 1) == quotes_before(m, s) + if m[s] == 0x22 { 1nat } else { 0nat });
    if s < i {
        lemma_commas_at(m, s + 1, i);
        assert(m[s] != 0x5c);
        let q2 = quotes_before(m, s + 1) % 2 == 1;
        let rest = strip_commas(m, s + 1, q2);
        let head = if !q && m[s] == 0x2c && (next_solid(m, s + 1) == Some(0x7du8) || next_solid(m, s + 1) == Some(0x5du8)) {
            0x20u8
        } else {
            m[s]
        };
        assert(strip_commas(m, s, q) == seq![head] + rest);
        assert(strip_commas(m, s, q)[i - s] == rest[i - (s + 1)]);
    }
}

/// Past whitespace, the next solid byte is the first that is not whitespace.
proof fn lemma_next_solid_to(b: Seq<u8>, j: int, k: int)
    requires
        0 <= j <= k < b.len(),
        forall|t: int| j <= t < k ==> #[trigger] b[t] == 0x20 || b[t] == 0x09 || b[t] == 0x0a || b[t] == 0x0c || b[t] == 0x0d,
        !(b[k] == 0x20 || b[k] == 0x09 || b[k] == 0x0a || b[k] == 0x0c || b[k] == 0x0d),
    ensures
        next_solid(b, j) == Some(b[k]),
    decreases k - j,
{
    if j < k {
        lemma_next_solid_to(b, j + 1, k);
    }
}

/// Past whitespace (spaces, tabs, line feeds, form feeds, carriage returns), the next solid
/// byte is the first byte that is not whitespace.
proof fn lemma_next_solid_past(b: Seq<u8>, j: int, k: int)
    requires
        0 <= j <= k < b.len(),
        forall|t: int| j <= t < k ==> #[trigger] b[t] == 0x20 || b[t] == 0x09 || b[t] == 0x0a || b[t] == 0x0c || b[t] == 0x0d,
        b[k] == 0x7d || b[k] == 0x5d,
    ensures
        next_solid(b, j) == Some(b[k]),
    decreases k - j,
{
    if j < k {
        lemma_next_solid_past(b, j + 1, k);
    }
}

/// A comma outside strings and comments that only whitespace (spaces, tabs, line feeds,
/// form feeds, carriage returns) separates from a closing `}` or `]` becomes a space, so
/// a trailing comma at the end of a line is removed like one before the bracket.
pub proof fn lemma_trailing_comma_blanked(raw: Seq<u8>, i: int, k: int)
    requires
        0 <= i < k < raw.len(),
        plain_before(raw, i),
        quotes_before(raw, i) % 2 == 0,
        raw[i] == 0x2c,
        forall|t: int| i < t < k ==> #[trigger] raw[t] == 0x20 || raw[t] == 0x09 || raw[t] == 0x0a || raw[t] == 0x0c || raw[t] == 0x0d,
        raw[k] == 0x7d || raw[k] == 0x5d,
    ensures
        cleaned(raw).len() == raw.len(),
        cleaned(raw)[i] == 0x20,
{
    lemma_cleaned_blanks_only(raw);
    assert forall|j: int| 0 <= j < k + 1 implies #[trigger] raw[j] != 0x5c && (raw[j] == 0x2f ==> quotes_before(raw, j) % 2 == 1) by {
        if j < i {
            assert(raw[j] != 0x5c && (raw[j] == 0x2f ==> quotes_before(raw, j) % 2 == 1));
        }
    }
    lemma_comments_copy(raw, 0, k + 1);
    lemma_comments_blank(raw, 0, false);
    let mid = strip_comments(raw, 0, false);
    assert forall|t: int| 0 <= t < k + 1 implies mid[t] == raw[t] by {
        assert(mid[t - 0] == raw[t]);
    }
    assert forall|j: int| 0 <= j < i implies #[trigger] mid[j] != 0x5c && (mid[j] == 0x2f ==> quotes_before(mid, j) % 2 == 1) by {
        lemma_quotes_agree(raw, mid, k + 1, j);
        assert(raw[j] != 0x5c && (raw[j] == 0x2f ==> quotes_before(raw, j) % 2 == 1));
    }
    lemma_quotes_agree(raw, mid, k + 1, i);
    assert forall|t: int| i + 1 <= t < k implies #[trigger] mid[t] == 0x20 || mid[t] == 0x09 || mid[t] == 0x0a || mid[t] == 0x0c || mid[t] == 0x0d by {
        assert(raw[t] == 0x20 || raw[t] == 0x09 || raw[t] == 0x0a || raw[t] == 0x0c || raw[t] == 0x0d);
    }
    lemma_next_solid_past(mid, i + 1, k);
    lemma_commas_at(mid, 0, i);
}

/// Cleaning copies a prefix of a text that is JSON with strings (no comments, no
/// backslash escapes): every byte there except a comma outside strings stays as it is, so
/// in particular the bytes of every string, commas and slashes included, are kept.
pub proof fn lemma_plain_bytes_kept(raw: Seq<u8>, n: int)
    requires
        0 <= n <= raw.len(),
        plain_before(raw, n),
    ensures
        forall|j: int| 0 <= j < n && (raw[j] != 0x2c || quotes_before(raw, j) % 2 == 1) ==> #[trigger] cleaned(raw)[j] == raw[j],
{
    lemma_comments_copy(raw, 0, n);
    lemma_comments_blank(raw, 0, false);
    let mid = strip_comments(raw, 0, false);
    assert forall|t: int| 0 <= t < n implies mid[t] == raw[t] by {
        assert(mid[t - 0] == raw[t]);
    }
    assert forall|j: int| 0 <= j < n && (raw[j] != 0x2c || quotes_before(raw, j) % 2 == 1) implies #[trigger] cleaned(raw)[j] == raw[j] by {
        assert forall|t: int| 0 <= t < j implies #[trigger] mid[t] != 0x5c && (mid[t] == 0x2f ==> quotes_before(mid, t) % 2 == 1) by {
            lemma_quotes_agree(raw, mid, n, t);
            assert(raw[t] != 0x5c && (raw[t] == 0x2f ==> quotes_before(raw, t) % 2 == 1));
        }
        lemma_quotes_agree(raw, mid, n, j);
        lemma_commas_at(mid, 0, j);
    }
}

/// A comma outside strings whose next non-whitespace byte neither closes a list or object
/// nor starts a comment is kept: only trailing commas are removed.
#[verifier::rlimit(40)]
pub proof fn lemma_inner_comma_kept(raw: Seq<u8>, i: int, k: int)
    requires
        0 <= i < k < raw.len(),
        plain_before(raw, k + 1),
        quotes_before(raw, i) % 2 == 0,
        raw[i] == 0x2c,
        forall|t: int| i < t < k ==> #[trigger] raw[t] == 0x20 || raw[t] == 0x09 || raw[t] == 0x0a || raw[t] == 0x0c || raw[t] == 0x0d,
        !(raw[k] == 0x20 || raw[k] == 0x09 || raw[k] == 0x0a || raw[k] == 0x0c || raw[k] == 0x0d),
        raw[k] != 0x7d && raw[k] != 0x5d,
    ensures
        cleaned(raw)[i] == 0x2c,
{
    lemma_comments_copy(raw, 0, k + 1);
    lemma_comments_blank(raw, 0, false);
    let mid = strip_comments(raw, 0, false);
    assert forall|t: int| 0 <= t < k + 1 implies mid[t] == raw[t] by {
        assert(mid[t - 0] == raw[t]);
    }
    assert forall|j: int| 0 <= j < i implies #[trigger] mid[j] != 0x5c && (mid[j] == 0x2f ==> quotes_before(mid, j) % 2 == 1) by {
        lemma_quotes_agree(raw, mid, k + 1, j);
        assert(raw[j] != 0x5c && (raw[j] == 0x2f ==> quotes_before(raw, j) % 2 == 1));
    }
    lemma_quotes_agree(raw, mid, k + 1, i);
    lemma_next_solid_to(mid, i + 1, k);
    lemma_commas_at(mid, 0, i);
}

/// JSON text with comments and trailing commas, blanked into plain JSON.
pub open spec fn cleaned(raw: Seq<u8>) -> Seq<u8> {
    strip_commas(strip_comments(raw, 0, false), 0, false)
}

/// Blanks a line comment starting at `i`, up to the newline.
fn blank_line(b: &Vec<u8>, out: &mut Vec<u8>, i: usize) -> (j: usize)
    requires
        i + 1 < b@.len(),
        b@[i as int] == 0x2f,
    ensures
        j == line_end(b@, i as int),
        i < j <= b@.len(),
        final(out)@ == old(out)@ + spaces((j - i) as nat),
{
    let ghost base = out@;
    let mut k = i;
    proof {
        lemma_line_end(b@, i as int);
    }
    while k < b.len() && b[k] != 0x0a
        invariant
            i <= k <= b@.len(),
            line_end(b@, i as int) == line_end(b@, k as int),
            out@ == base + spaces((k - i) as nat),
        decreases b@.len() - k,
    {
        out.push(0x20);
        k = k + 1;
        assert(out@ =~= base + spaces((k - i) as nat));
    }
    k
}

/// Blanks a block comment starting at `i`, through its closing `*/` or to the end.
fn blank_block(b: &Vec<u8>, out: &mut Vec<u8>, i: usize) -> (j: usize)
    requires
        i + 1 < b.len(),
    ensures
        block_end(b@, i + 2) + 1 < b@.len() ==> j == block_end(b@, i + 2) + 2,
        block_end(b@, i + 2) + 1 >= b@.len() ==> j == b@.len(),
        i < j <= b@.len(),
        final(out)@ == old(out)@ + spaces((j - i) as nat),
{
    let ghost base = out@;
    out.push(0x20);
    out.push(0x20);
    let mut k = i + 2;
    assert(out@ =~= base + spaces((k - i) as nat));
    while k < b.len() && !(k + 1 < b.len() && b[k] == 0x2a && b[k + 1] == 0x2f)
        invariant
            i + 2 <= k <= b@.len(),
            block_end(b@, i + 2) == block_end(b@, k as int),
            out@ == base + spaces((k - i) as nat),
        decreases b@.len() - k,
    {
        out.push(0x20);
        k = k + 1;
        assert(out@ =~= base + spaces((k - i) as nat));
    }
    if k < b.len() && k + 1 < b.len() {
        out.push(0x20);
        out.push(0x20);
        k = k + 2;
        assert(out@ =~= base + spaces((k - i) as nat));
    }
    k
}

fn blank_comments(b: &Vec<u8>) -> (out: Vec<u8>)
    ensures
        out@ == strip_comments(b@, 0, false),
{
    let mut out: Vec<u8> = Vec::new();
    let mut i: usize = 0;
    let mut quoted = false;
    while i < b.len()
        invariant
            out@ + strip_comments(b@, i as int, quoted) == strip_comments(b@, 0, false),
        decreases b.len() - i,
    {
        if quoted {
            if b[i] == 0x5c {
                out.push(b[i]);
                if i + 1 < b.len() {
                    out.push(b[i + 1]);
                    assert(out@ + strip_comments(b@, i + 2, true) =~= strip_comments(b@, 0, false));
                } else {
                    assert(out@ =~= strip_comments(b@, 0, false));
                    return out;
                }
                i = i + 2;
                continue;
            }
            if b[i] == 0x22 {
                quoted = false;
            }
            out.push(b[i]);
            i = i + 1;
            assert(out@ + strip_comments(b@, i as int, quoted) =~= strip_comments(b@, 0, false));
        } else if b[i] == 0x22 {
            quoted = true;
            out.push(b[i]);
            i = i + 1;
            assert(out@ + strip_comments(b@, i as int, quoted) =~= strip_comments(b@, 0, false));
        } else if i + 1 < b.len() && b[i] == 0x2f && b[i + 1] == 0x2f {
            let ghost base = out@;
            let ghost start = i as int;
            let j = blank_line(b, &mut out, i);
            proof {
                lemma_line_end(b@, start);
                assert(strip_comments(b@, start, false) == spaces((j - start) as nat) + strip_comments(b@, j as int, false));
                assert(out@ + strip_comments(b@, j as int, false) =~= base + (spaces((j - start) as nat) + strip_comments(b@, j as int, false)));
            }
            i = j;
        } else if i + 1 < b.len() && b[i] == 0x2f && b[i + 1] == 0x2a {
            let ghost base = out@;
            let ghost start = i as int;
            let j = blank_block(b, &mut out, i);
            proof {
                lemma_block_end(b@, start + 2);
                if j < b.len() {
                    assert(strip_comments(b@, start, false) == spaces((j - start) as nat) + strip_comments(b@, j as int, false));
                    assert(out@ + strip_comments(b@, j as int, false) =~= base + (spaces((j - start) as nat) + strip_comments(b@, j as int, false)));
                } else {
                    assert(out@ + strip_comments(b@, j as int, false) =~= base + strip_comments(b@, start, false));
                }
            }
            i = j;
        } else {
            out.push(b[i]);
            i = i + 1;
            assert(out@ + strip_comments(b@, i as int, quoted) =~= strip_comments(b@, 0, false));
        }
    }
    assert(out@ =~= strip_comments(b@, 0, false));
    out
}

/// The first byte at or after `j` that is not ASCII whitespace.
fn next_solid_byte(b: &Vec<u8>, j: usize) -> (r: Option<u8>)
    ensures
        r == next_solid(b@, j as int),
    decreases b.len() - j,
{
    let mut k = j;
    while k < b.len() && (b[k] == 0x20 || b[k] == 0x09 || b[k] == 0x0a || b[k] == 0x0c || b[k] == 0x0d)
        invariant
            j <= k,
            next_solid(b@, j as int) == next_solid(b@, k as int),
        decreases b.len() - k,
    {
        k = k + 1;
    }
    if k < b.len() {
        Some(b[k])
    } else {
        None
    }
}

fn blank_commas(b: &Vec<u8>) -> (out: Vec<u8>)
    ensures
        out@ == strip_commas(b@, 0, false),
{
    let mut out: Vec<u8> = Vec::new();
    let mut i: usize = 0;
    let mut quoted = false;
    while i < b.len()
        invariant
            out@ + strip_commas(b@, i as int, quoted) == strip_commas(b@, 0, false),
        decreases b.len() - i,
    {
        if quoted {
            if b[i] == 0x5c {
                out.push(b[i]);
                if i + 1 < b.len() {
                    out.push(b[i + 1]);
                    assert(out@ + strip_commas(b@, i + 2, true) =~= strip_commas(b@, 0, false));
                } else {
                    assert(out@ =~= strip_commas(b@, 0, false));
                    return out;
                }
                i = i + 2;
                continue;
            }
            if b[i] == 0x22 {
                quoted = false;
            }
            out.push(b[i]);
            i = i + 1;
            assert(out@ + strip_commas(b@, i as int, quoted) =~= strip_commas(b@, 0, false));
        } else if b[i] == 0x22 {
            quoted = true;
            out.push(b[i]);
            i = i + 1;
            assert(out@ + strip_commas(b@, i as int, quoted) =~= strip_commas(b@, 0, false));
        } else {
            let closing = b[i] == 0x2c && match next_solid_byte(b, i + 1) {
                Some(c) => c == 0x7d || c == 0x5d,
                None => false,
            };
            if closing {
                out.push(0x20);
            } else {
                out.push(b[i]);
            }
            i = i + 1;
            assert(out@ + strip_commas(b@, i as int, quoted) =~= strip_commas(b@, 0, false));
        }
    }
    assert(out@ =~= strip_commas(b@, 0, false));
    out
}

/// Blanks comments and trailing commas outside strings, byte for byte.
pub fn clean_jsonc(raw: &[u8]) -> (clean: Vec<u8>)
    ensures
        clean@ == cleaned(raw@),
{
    let mut bytes: Vec<u8> = Vec::new();
    let mut i: usize = 0;
    while i < raw.len()
        invariant
            i <= raw@.len(),
            bytes@ == raw@.subrange(0, i as int),
        decreases raw@.len() - i,
    {
        bytes.push(raw[i]);
        i = i + 1;
        assert(bytes@ =~= raw@.subrange(0, i as int));
    }
    assert(bytes@ =~= raw@);
    let stripped = blank_comments(&bytes);
    blank_commas(&stripped)
}

} // verus!
