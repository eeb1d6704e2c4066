//! The mathematical model of the dictionary: parsing of the line-oriented
//! load format, longest-prefix matching, and one pass of greedy substitution,
//! all over byte sequences.

use vstd::prelude::*;
use vstd::utf8::*;

verus! {

/// The contents of a dictionary that holds no entries.
pub open spec fn no_entries() -> Map<Seq<u8>, Seq<u8>> {
    Map::empty()
}

/// The index of the first occurrence of `b` in `s`, or `s.len()` when `s`
/// holds no such byte.
pub open spec fn scan_to(s: Seq<u8>, b: u8) -> nat
    decreases s.len(),
{
    if s.len() == 0 {
        0
    } else if s[0] == b {
        0
    } else {
        1 + scan_to(s.skip(1), b)
    }
}

/// What `scan_to` returns: the bytes before the index differ from `b`, and
/// the byte at the index, when there is one, is `b`.
pub proof fn lemma_scan_to(s: Seq<u8>, b: u8)
    ensures
        scan_to(s, b) <= s.len(),
        forall|j: int| 0 <= j < scan_to(s, b) ==> s[j] != b,
        scan_to(s, b) < s.len() ==> s[scan_to(s, b) as int] == b,
    decreases s.len(),
{
    if s.len() == 0 {
    } else if s[0] == b {
    } else {
        lemma_scan_to(s.skip(1), b);
        let n = scan_to(s, b);
        assert forall|j: int| 0 <= j < n implies s[j] != b by {
            if j > 0 {
                assert(s.skip(1)[j - 1] == s[j]);
            }
        }
        if n < s.len() {
            assert(s.skip(1)[n - 1] == s[n as int]);
        }
    }
}

/// Splits one line at its first space: the key before it, the value after it.
/// A line without a space yields nothing.
pub open spec fn parse_line(line: Seq<u8>) -> Option<(Seq<u8>, Seq<u8>)> {
    let sp = scan_to(line, 32u8);
    if sp < line.len() {
        Some((line.take(sp as int), line.skip(sp as int + 1)))
    } else {
        None
    }
}

/// Drops a single carriage return from the end of a line.
pub open spec fn strip_cr(line: Seq<u8>) -> Seq<u8> {
    if line.len() > 0 && line[line.len() - 1] == 13u8 {
        line.take(line.len() - 1)
    } else {
        line
    }
}

/// Adds the entry parsed from one line, when the line holds one.
pub open spec fn insert_line(m: Map<Seq<u8>, Seq<u8>>, line: Seq<u8>) -> Map<Seq<u8>, Seq<u8>> {
    match parse_line(line) {
        Some((k, v)) => m.insert(k, v),
        None => m,
    }
}

/// The dictionary contents after loading `raw` on top of `m`: one entry per
/// line that holds a space, later lines overwriting earlier ones. A carriage
/// return before a line feed is not part of the line; a final line without a
/// line feed keeps its bytes as they stand.
pub open spec fn load_spec(m: Map<Seq<u8>, Seq<u8>>, raw: Seq<u8>) -> Map<Seq<u8>, Seq<u8>>
    decreases raw.len(),
{
    if raw.len() == 0 {
        m
    } else {
        let n = scan_to(raw, 10u8);
        if n < raw.len() {
            load_spec(insert_line(m, strip_cr(raw.take(n as int))), raw.skip(n as int + 1))
        } else {
            insert_line(m, raw)
        }
    }
}

/// True when `k` is a key of `m` that matches at the front of `text`: it is
/// nonempty and a byte prefix of `text`.
pub open spec fn match_ok(m: Map<Seq<u8>, Seq<u8>>, text: Seq<u8>, k: Seq<u8>) -> bool {
    &&& m.contains_key(k)
    &&& 1 <= k.len() <= text.len()
    &&& text.take(k.len() as int) == k
}

/// True when some key of `m` matches at the front of `text`.
pub open spec fn has_match(m: Map<Seq<u8>, Seq<u8>>, text: Seq<u8>) -> bool {
    exists|k: Seq<u8>| match_ok(m, text, k)
}

/// True when some key of `m` matches at the front of `text` and is at least
/// as long as every other key that matches there.
pub open spec fn has_best_match(m: Map<Seq<u8>, Seq<u8>>, text: Seq<u8>) -> bool {
    exists|k: Seq<u8>|
        match_ok(m, text, k) && (forall|j: Seq<u8>| match_ok(m, text, j) ==> j.len() <= k.len())
}

/// The longest key of `m` that matches at the front of `text`.
pub open spec fn best_match(m: Map<Seq<u8>, Seq<u8>>, text: Seq<u8>) -> Seq<u8> {
    choose|k: Seq<u8>|
        match_ok(m, text, k) && (forall|j: Seq<u8>| match_ok(m, text, j) ==> j.len() <= k.len())
}

/// Two keys that match at the front of the same text are prefixes of it, so
/// the longer of any pair extends the shorter; a match at least as long as
/// every other is unique. This gives the longest match whenever any match
/// exists.
pub proof fn lemma_best_match_exists(m: Map<Seq<u8>, Seq<u8>>, text: Seq<u8>)
    requires
        has_match(m, text),
    ensures
        has_best_match(m, text),
        match_ok(m, text, best_match(m, text)),
        forall|j: Seq<u8>| match_ok(m, text, j) ==> j.len() <= best_match(m, text).len(),
{
    lemma_best_match_from(m, text, text.len() as int);
    let b = best_match(m, text);
    assert(match_ok(m, text, b) && (forall|j: Seq<u8>| match_ok(m, text, j) ==> j.len() <= b.len()));
}

proof fn lemma_best_match_from(m: Map<Seq<u8>, Seq<u8>>, text: Seq<u8>, n: int)
    requires
        has_match(m, text),
        0 <= n <= text.len(),
        forall|j: Seq<u8>| match_ok(m, text, j) ==> j.len() <= n,
    ensures
        has_best_match(m, text),
    decreases n,
{
    let c = text.take(n);
    if match_ok(m, text, c) {
        assert(has_best_match(m, text));
    } else {
        assert forall|j: Seq<u8>| match_ok(m, text, j) implies j.len() <= n - 1 by {
            if j.len() == n {
                assert(j == c);
            }
        }
        let witness = choose|k: Seq<u8>| match_ok(m, text, k);
        assert(witness.len() >= 1);
        lemma_best_match_from(m, text, n - 1);
    }
}

/// Bytes consumed by the single-character passthrough step: the length of the
/// first encoded character, or one byte when the front of `text` is not a
/// well-formed encoding.
pub open spec fn step_len(text: Seq<u8>) -> int {
    if valid_first_scalar(text) {
        length_of_first_scalar(text)
    } else {
        1
    }
}

/// One pass of greedy longest-match substitution over `text`: at each point
/// the value of the longest matching key is emitted and the key consumed;
/// where no key matches, one character passes through unchanged.
pub open spec fn replace_spec(m: Map<Seq<u8>, Seq<u8>>, text: Seq<u8>) -> Seq<u8>
    decreases text.len(),
{
    if text.len() == 0 {
        Seq::<u8>::empty()
    } else if has_best_match(m, text) {
        let k = best_match(m, text);
        m[k] + replace_spec(m, text.skip(k.len() as int))
    } else {
        let n = step_len(text);
        text.take(n) + replace_spec(m, text.skip(n))
    }
}

/// A well-formed first character is one to four bytes long and lies within
/// the sequence.
pub proof fn lemma_first_scalar_len(t: Seq<u8>)
    requires
        valid_first_scalar(t),
    ensures
        1 <= length_of_first_scalar(t) <= t.len(),
        length_of_first_scalar(t) <= 4,
{
}

/// A one-byte character of a well-formed encoding lies between two character
/// boundaries of its own.
pub proof fn lemma_ascii_boundary(s: Seq<u8>, i: int)
    requires
        valid_utf8(s),
        0 <= i < s.len(),
        s[i] < 0x80,
    ensures
        is_char_boundary(s, i),
        is_char_boundary(s, i + 1),
{
    is_char_boundary_iff_not_is_continuation_byte(s, i);
    valid_utf8_split(s, i);
    let tail = s.subrange(i, s.len() as int);
    assert(tail[0] == s[i]);
    assert(valid_first_scalar(tail));
    assert(length_of_first_scalar(tail) == 1);
    let rest = pop_first_scalar(tail);
    assert(valid_utf8(rest));
    if i + 1 < s.len() {
        assert(rest[0] == s[i + 1]);
        assert(valid_first_scalar(rest));
        assert(!is_continuation_byte(s[i + 1]));
        is_char_boundary_iff_not_is_continuation_byte(s, i + 1);
    } else {
        is_char_boundary_start_end_of_seq(s);
    }
}

/// A slice of a well-formed encoding between two character boundaries is a
/// well-formed encoding.
pub proof fn lemma_valid_between(s: Seq<u8>, a: int, c: int)
    requires
        valid_utf8(s),
        0 <= a <= c <= s.len(),
        is_char_boundary(s, a),
        is_char_boundary(s, c),
    ensures
        valid_utf8(s.subrange(a, c)),
{
    valid_utf8_split(s, a);
    let tail = s.subrange(a, s.len() as int);
    if c == s.len() {
        assert(s.subrange(a, c) =~= tail);
    } else {
        is_char_boundary_iff_not_is_continuation_byte(s, c);
        assert(tail[c - a] == s[c]);
        is_char_boundary_iff_not_is_continuation_byte(tail, c - a);
        valid_utf8_split(tail, c - a);
        assert(s.subrange(a, c) =~= tail.subrange(0, c - a));
    }
}

/// A well-formed prefix of a well-formed encoding ends at a character
/// boundary of the whole.
pub proof fn lemma_valid_prefix_boundary(s: Seq<u8>, n: int)
    requires
        valid_utf8(s),
        0 <= n <= s.len(),
        valid_utf8(s.take(n)),
    ensures
        is_char_boundary(s, n),
    decreases n,
{
    if n != 0 {
        let p = s.take(n);
        assert(p[0] == s[0]);
        assert(valid_first_scalar(p));
        assert(valid_first_scalar(s));
        let l = length_of_first_scalar(s);
        assert(length_of_first_scalar(p) == l);
        lemma_first_scalar_len(p);
        assert(l <= n);
        assert(pop_first_scalar(s) =~= s.subrange(l, s.len() as int));
        assert(pop_first_scalar(p) =~= s.subrange(l, s.len() as int).take(n - l));
        assert(valid_utf8(pop_first_scalar(s)));
        assert(valid_utf8(pop_first_scalar(p)));
        lemma_valid_prefix_boundary(s.subrange(l, s.len() as int), n - l);
    }
}

/// True when `k` occurs as a contiguous run of bytes anywhere in `t`.
pub open spec fn occurs_in(t: Seq<u8>, k: Seq<u8>) -> bool {
    exists|i: int| 0 <= i && i + k.len() <= t.len() && #[trigger] t.subrange(i, i + k.len()) == k
}

} // verus!
