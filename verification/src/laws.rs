//! Laws of the transducer, proved over the model: coverage of the input,
//! passthrough of texts without matches, overwrite on load, and idempotence
//! for disjoint vocabularies.

use vstd::prelude::*;
use vstd::utf8::*;

use crate::model::{
    best_match, has_best_match, has_match, insert_line, lemma_best_match_exists,
    lemma_first_scalar_len, lemma_scan_to, lemma_valid_prefix_boundary, load_spec, match_ok,
    occurs_in, parse_line, replace_spec, scan_to, step_len,
};

verus! {

/// Concatenation of a sequence of byte fragments, front to back.
pub open spec fn concat_all(ss: Seq<Seq<u8>>) -> Seq<u8>
    decreases ss.len(),
{
    if ss.len() == 0 {
        Seq::<u8>::empty()
    } else {
        ss[0] + concat_all(ss.skip(1))
    }
}

/// The fragments of the input that one pass consumes, in order: each is
/// either a matched key or one passthrough character.
pub open spec fn consumed_fragments(m: Map<Seq<u8>, Seq<u8>>, text: Seq<u8>) -> Seq<Seq<u8>>
    decreases text.len(),
{
    if text.len() == 0 {
        Seq::<Seq<u8>>::empty()
    } else if has_best_match(m, text) {
        let k = best_match(m, text);
        seq![k] + consumed_fragments(m, text.skip(k.len() as int))
    } else {
        let n = step_len(text);
        seq![text.take(n)] + consumed_fragments(m, text.skip(n))
    }
}

/// Coverage: one pass consumes the whole input — the fragments it consumes,
/// matched keys and passthrough characters alike, concatenate back to
/// exactly the input text.
pub proof fn lemma_replace_all_covers_input(m: Map<Seq<u8>, Seq<u8>>, text: Seq<u8>)
    ensures
        concat_all(consumed_fragments(m, text)) == text,
    decreases text.len(),
{
    if text.len() == 0 {
        assert(concat_all(consumed_fragments(m, text)) =~= text);
    } else if has_best_match(m, text) {
        let k = best_match(m, text);
        assert(match_ok(m, text, k));
        lemma_replace_all_covers_input(m, text.skip(k.len() as int));
        let frags = consumed_fragments(m, text.skip(k.len() as int));
        assert((seq![k] + frags).skip(1) =~= frags);
        assert((seq![k] + frags)[0] == k);
        assert(k + text.skip(k.len() as int) =~= text);
    } else {
        let n = step_len(text);
        assert(1 <= n <= text.len()) by {
            if valid_first_scalar(text) {
                lemma_first_scalar_len(text);
            }
        }
        lemma_replace_all_covers_input(m, text.skip(n));
        let frags = consumed_fragments(m, text.skip(n));
        assert((seq![text.take(n)] + frags).skip(1) =~= frags);
        assert((seq![text.take(n)] + frags)[0] == text.take(n));
        assert(text.take(n) + text.skip(n) =~= text);
    }
}

/// Passthrough: when no key of the dictionary occurs anywhere in the text,
/// one pass returns the text unchanged.
pub proof fn lemma_replace_all_passthrough(m: Map<Seq<u8>, Seq<u8>>, text: Seq<u8>)
    requires
        forall|k: Seq<u8>| m.contains_key(k) && k.len() >= 1 ==> !occurs_in(text, k),
    ensures
        replace_spec(m, text) == text,
    decreases text.len(),
{
    if text.len() != 0 {
        assert(!has_best_match(m, text)) by {
            if has_best_match(m, text) {
                let k = best_match(m, text);
                assert(match_ok(m, text, k));
                assert(text.subrange(0, 0 + k.len() as int) =~= k);
                assert(occurs_in(text, k));
            }
        }
        let n = step_len(text);
        assert(1 <= n <= text.len()) by {
            if valid_first_scalar(text) {
                lemma_first_scalar_len(text);
            }
        }
        assert forall|k: Seq<u8>| m.contains_key(k) && k.len() >= 1 implies !occurs_in(
            text.skip(n),
            k,
        ) by {
            if occurs_in(text.skip(n), k) {
                let i = choose|i: int|
                    0 <= i && i + k.len() <= text.skip(n).len() && #[trigger] text.skip(n).subrange(
                        i,
                        i + k.len(),
                    ) == k;
                assert(text.subrange((n + i), (n + i) + k.len() as int) =~= text.skip(n).subrange(
                    i,
                    i + k.len(),
                ));
                assert(occurs_in(text, k));
            }
        }
        lemma_replace_all_passthrough(m, text.skip(n));
        assert(text.take(n) + text.skip(n) =~= text);
    }
}

/// One load line: a key and a value separated by one space.
pub open spec fn line_for(k: Seq<u8>, v: Seq<u8>) -> Seq<u8> {
    k + seq![32u8] + v
}

/// Loading a single line that holds no line feed inserts its one entry.
pub proof fn lemma_load_line(m: Map<Seq<u8>, Seq<u8>>, k: Seq<u8>, v: Seq<u8>)
    requires
        forall|i: int| 0 <= i < k.len() ==> k[i] != 32u8 && k[i] != 10u8,
        forall|i: int| 0 <= i < v.len() ==> v[i] != 10u8,
    ensures
        load_spec(m, line_for(k, v)) == m.insert(k, v),
{
    let line = line_for(k, v);
    assert(line.len() == k.len() + 1 + v.len());
    assert(line[k.len() as int] == 32u8);
    assert forall|i: int| 0 <= i < line.len() implies line[i] != 10u8 by {
        if i < k.len() {
            assert(line[i] == k[i]);
        } else if i > k.len() {
            assert(line[i] == v[i - k.len() - 1]);
        }
    }
    lemma_scan_to(line, 10u8);
    assert(scan_to(line, 10u8) == line.len());
    lemma_scan_to(line, 32u8);
    let sp = scan_to(line, 32u8) as int;
    assert forall|i: int| 0 <= i < k.len() implies line[i] != 32u8 by {
        assert(line[i] == k[i]);
    }
    assert(sp == k.len()) by {
        if sp < k.len() {
            assert(line[sp] == 32u8);
        }
        if sp > k.len() {
            assert(line[k.len() as int] != 32u8);
        }
    }
    assert(line.take(sp) =~= k);
    assert(line.skip(sp + 1) =~= v);
    assert(parse_line(line) == Some((k, v)));
    assert(load_spec(m, line) == insert_line(m, line));
}

/// Load overwrite: after loading one line for a key and then another line
/// for the same key, only the second value is retrievable under that key,
/// and the dictionary is the same as if only the second line had been
/// loaded last.
pub proof fn lemma_load_overwrite(m: Map<Seq<u8>, Seq<u8>>, k: Seq<u8>, v1: Seq<u8>, v2: Seq<u8>)
    requires
        forall|i: int| 0 <= i < k.len() ==> k[i] != 32u8 && k[i] != 10u8,
        forall|i: int| 0 <= i < v1.len() ==> v1[i] != 10u8,
        forall|i: int| 0 <= i < v2.len() ==> v2[i] != 10u8,
    ensures
        load_spec(load_spec(m, line_for(k, v1)), line_for(k, v2)) == load_spec(m, line_for(k, v2)),
        load_spec(load_spec(m, line_for(k, v1)), line_for(k, v2))[k] == v2,
{
    lemma_load_line(m, k, v1);
    lemma_load_line(m.insert(k, v1), k, v2);
    lemma_load_line(m, k, v2);
    assert(m.insert(k, v1).insert(k, v2) =~= m.insert(k, v2));
}

/// True when no byte stands on both the key side and the value side of the
/// dictionary.
pub open spec fn byte_disjoint(m: Map<Seq<u8>, Seq<u8>>) -> bool {
    forall|k1: Seq<u8>, k2: Seq<u8>, i: int, j: int|
        #![trigger k1[i], m[k2][j]]
        m.contains_key(k1) && m.contains_key(k2) && 0 <= i < k1.len() && 0 <= j < m[k2].len()
            ==> k1[i] != m[k2][j]
}

/// Helper for idempotence: a nonempty byte run that shares no byte with any
/// value of the dictionary and prefixes the output of a pass also prefixes
/// the text of that pass, which begins with no match.
proof fn lemma_output_run_is_input(m: Map<Seq<u8>, Seq<u8>>, text: Seq<u8>, s: Seq<u8>)
    requires
        s.len() >= 1,
        s.is_prefix_of(replace_spec(m, text)),
        forall|k: Seq<u8>| #[trigger] m.contains_key(k) ==> m[k].len() >= 1,
        forall|k2: Seq<u8>, i: int, j: int|
            #![trigger s[i], m[k2][j]]
            m.contains_key(k2) && 0 <= i < s.len() && 0 <= j < m[k2].len() ==> s[i] != m[k2][j],
    ensures
        s.is_prefix_of(text),
        !has_match(m, text),
    decreases text.len(),
{
    let out = replace_spec(m, text);
    if text.len() == 0 {
        assert(out.len() == 0);
        assert(false);
    } else if has_best_match(m, text) {
        let k = best_match(m, text);
        assert(match_ok(m, text, k));
        let v = m[k];
        assert(v.len() >= 1);
        assert(out == v + replace_spec(m, text.skip(k.len() as int)));
        assert(s[0] == out[0]);
        assert(out[0] == v[0]);
        assert(false);
    } else {
        assert(!has_match(m, text)) by {
            if has_match(m, text) {
                lemma_best_match_exists(m, text);
            }
        }
        let n = step_len(text);
        assert(1 <= n <= text.len()) by {
            if valid_first_scalar(text) {
                lemma_first_scalar_len(text);
            }
        }
        let rest_out = replace_spec(m, text.skip(n));
        assert(out == text.take(n) + rest_out);
        if s.len() <= n {
            assert forall|i: int| 0 <= i < s.len() implies s[i] == text[i] by {
                assert(s[i] == out[i]);
                assert(out[i] == text.take(n)[i]);
            }
            assert(s =~= text.subrange(0, s.len() as int));
        } else {
            let s2 = s.skip(n);
            assert(s2.len() >= 1);
            assert forall|i: int| 0 <= i < s2.len() implies s2[i] == rest_out[i] by {
                assert(s2[i] == s[i + n]);
                assert(s[i + n] == out[i + n]);
                assert(out[i + n] == rest_out[i]);
            }
            assert(s2 =~= rest_out.subrange(0, s2.len() as int));
            assert(s2.is_prefix_of(rest_out));
            assert forall|k2: Seq<u8>, i: int, j: int|
                #![trigger s2[i], m[k2][j]]
                m.contains_key(k2) && 0 <= i < s2.len() && 0 <= j
                    < m[k2].len() implies s2[i] != m[k2][j] by {
                assert(s2[i] == s[i + n]);
            }
            lemma_output_run_is_input(m, text.skip(n), s2);
            assert forall|i: int| 0 <= i < s.len() implies s[i] == text[i] by {
                if i < n {
                    assert(s[i] == out[i]);
                    assert(out[i] == text.take(n)[i]);
                } else {
                    assert(s[i] == s2[i - n]);
                    assert(s2[i - n] == text.skip(n)[i - n]);
                }
            }
            assert(s =~= text.subrange(0, s.len() as int));
        }
    }
}

/// No key of the dictionary occurs anywhere in the output of one pass, when
/// the text and the keys are well-formed encodings, every value is nonempty,
/// and no byte stands on both the key side and the value side.
pub proof fn lemma_no_key_in_output(m: Map<Seq<u8>, Seq<u8>>, text: Seq<u8>)
    requires
        valid_utf8(text),
        forall|k: Seq<u8>| #[trigger] m.contains_key(k) ==> valid_utf8(k),
        forall|k: Seq<u8>| #[trigger] m.contains_key(k) ==> m[k].len() >= 1,
        byte_disjoint(m),
    ensures
        forall|k: Seq<u8>|
            m.contains_key(k) && k.len() >= 1 ==> !occurs_in(replace_spec(m, text), k),
    decreases text.len(),
{
    let out = replace_spec(m, text);
    if text.len() == 0 {
        assert forall|k: Seq<u8>| m.contains_key(k) && k.len() >= 1 implies !occurs_in(out, k) by {
            assert(out.len() == 0);
        }
    } else {
        let ghost frag: Seq<u8>;
        let ghost t2: Seq<u8>;
        if has_best_match(m, text) {
            let bm = best_match(m, text);
            assert(match_ok(m, text, bm));
            frag = m[bm];
            t2 = text.skip(bm.len() as int);
            // the consumed key ends at a character boundary, so the rest of
            // the text is itself well-formed
            assert(valid_utf8(bm));
            assert(bm =~= text.take(bm.len() as int));
            lemma_valid_prefix_boundary(text, bm.len() as int);
            valid_utf8_split(text, bm.len() as int);
            assert(t2 =~= text.subrange(bm.len() as int, text.len() as int));
            assert(out == frag + replace_spec(m, t2));
        } else {
            let n = step_len(text);
            assert(valid_first_scalar(text));
            lemma_first_scalar_len(text);
            frag = text.take(n);
            t2 = text.skip(n);
            assert(t2 =~= pop_first_scalar(text));
            assert(valid_utf8(t2));
            assert(out == frag + replace_spec(m, t2));
        }
        lemma_no_key_in_output(m, t2);
        let rest_out = replace_spec(m, t2);
        assert forall|k: Seq<u8>| m.contains_key(k) && k.len() >= 1 implies !occurs_in(out, k) by {
            if occurs_in(out, k) {
                let p = choose|p: int|
                    0 <= p && p + k.len() <= out.len() && #[trigger] out.subrange(p, p + k.len())
                        == k;
                if p >= frag.len() {
                    assert(rest_out.subrange(p - frag.len(), p - frag.len() + k.len()) =~= k);
                    assert(occurs_in(rest_out, k));
                } else {
                    assert(k[0] == out.subrange(p, p + k.len())[0]);
                    assert(k[0] == out[p]);
                    assert(out[p] == frag[p]);
                    if has_best_match(m, text) {
                        let bm = best_match(m, text);
                        assert(match_ok(m, text, bm));
                        assert(k[0] == m[bm][p]);
                        assert(false);
                    } else {
                        let n = step_len(text);
                        if p > 0 {
                            // inside one character's encoding every byte after
                            // the first is a continuation byte, but a
                            // well-formed key starts with a leading byte
                            assert(frag[p] == text[p]);
                            assert(valid_leading_and_continuation_bytes_first_codepoint(text));
                            assert(n == length_of_first_codepoint(text));
                            assert(is_continuation_byte(text[p]));
                            assert(valid_first_scalar(k));
                            assert(valid_leading_and_continuation_bytes_first_codepoint(k));
                            assert(!is_continuation_byte(k[0]));
                            assert(false);
                        } else {
                            assert(k =~= out.subrange(0, k.len() as int));
                            assert(k.is_prefix_of(out));
                            assert forall|k2: Seq<u8>, i: int, j: int|
                                #![trigger k[i], m[k2][j]]
                                m.contains_key(k2) && 0 <= i < k.len() && 0 <= j
                                    < m[k2].len() implies k[i] != m[k2][j] by {
                                assert(byte_disjoint(m));
                            }
                            lemma_output_run_is_input(m, text, k);
                            assert(k =~= text.take(k.len() as int));
                            assert(match_ok(m, text, k));
                            assert(has_match(m, text));
                            lemma_best_match_exists(m, text);
                            assert(false);
                        }
                    }
                }
            }
        }
    }
}

/// Idempotence for disjoint vocabularies: when the text and the keys are
/// well-formed encodings, every value is nonempty, and no byte stands on
/// both the key side and the value side of the dictionary, a second pass
/// over the output of a first pass changes nothing.
pub proof fn lemma_replace_all_idempotent(m: Map<Seq<u8>, Seq<u8>>, text: Seq<u8>)
    requires
        valid_utf8(text),
        forall|k: Seq<u8>| #[trigger] m.contains_key(k) ==> valid_utf8(k),
        forall|k: Seq<u8>| #[trigger] m.contains_key(k) ==> m[k].len() >= 1,
        byte_disjoint(m),
    ensures
        replace_spec(m, replace_spec(m, text)) == replace_spec(m, text),
{
    lemma_no_key_in_output(m, text);
    lemma_replace_all_passthrough(m, replace_spec(m, text));
}

} // verus!
