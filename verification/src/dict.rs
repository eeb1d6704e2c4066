//! The dictionary: a byte-keyed key/value store with longest-prefix lookup
//! and a greedy replace-all pass over encoded text.

use vstd::prelude::*;
use vstd::slice::{slice_subrange, slice_to_vec};
use vstd::string::StringSliceAdditionalSpecFns;
use vstd::utf8::*;

use crate::model::{
    best_match, has_best_match, has_match, insert_line, lemma_ascii_boundary,
    lemma_best_match_exists, lemma_first_scalar_len, lemma_scan_to, lemma_valid_between,
    lemma_valid_prefix_boundary, load_spec, match_ok, no_entries, parse_line, replace_spec,
    scan_to, step_len, strip_cr,
};
use crate::store::{bytes_to_string, trie_contents, trie_get, trie_insert, trie_new, ByteTrie};

verus! {

/// A mapping from byte-string keys to byte-string values, backed by a trie
/// that answers exact-match lookups.
pub struct Dict {
    trie: ByteTrie,
}

impl View for Dict {
    type V = Map<Seq<u8>, Seq<u8>>;

    /// The key/value pairs the dictionary holds, as byte sequences.
    closed spec fn view(&self) -> Map<Seq<u8>, Seq<u8>> {
        trie_contents(self.trie)
    }
}

impl Dict {
    /// Every key and every value of the dictionary is a well-formed encoding
    /// of text.
    pub open spec fn wf(&self) -> bool {
        forall|k: Seq<u8>|
            #[trigger] self@.contains_key(k) ==> valid_utf8(k) && valid_utf8(self@[k])
    }

    /// Returns an empty dictionary.
    pub fn new() -> (d: Dict)
        ensures
            d@ == no_entries(),
            d.wf(),
    {
        Dict { trie: trie_new() }
    }

    /// Adds the entries of `raw` to the dictionary, one per line: the key is
    /// the text up to the first space, the value the rest of the line. Lines
    /// without a space are skipped, and a later line for a key overwrites an
    /// earlier one.
    pub fn load(&mut self, raw: &str)
        requires
            old(self).wf(),
        ensures
            final(self).wf(),
            final(self)@ == load_spec(old(self)@, raw.spec_bytes()),
    {
        let b: &[u8] = raw.as_bytes();
        proof {
            encode_utf8_valid_utf8(raw@);
            is_char_boundary_start_end_of_seq(b@);
        }
        let mut i: usize = 0;
        proof {
            assert(b@.skip(0) =~= b@);
        }
        while i < b.len()
            invariant
                self.wf(),
                i <= b@.len(),
                b@ == raw.spec_bytes(),
                valid_utf8(b@),
                is_char_boundary(b@, i as int),
                load_spec(old(self)@, b@) == load_spec(self@, b@.skip(i as int)),
            decreases b@.len() - i,
        {
            let ghost full = b@;
            let ghost s = full.skip(i as int);
            let ghost m_in = self@;
            let mut j: usize = i;
            while j < b.len() && b[j] != 10u8
                invariant
                    i <= j <= b@.len(),
                    forall|l: int| i <= l < j ==> b@[l] != 10u8,
                decreases b@.len() - j,
            {
                j += 1;
            }
            proof {
                lemma_scan_to(s, 10u8);
                assert forall|l: int| 0 <= l < j - i implies s[l] != 10u8 by {
                    assert(s[l] == full[l + i]);
                }
                let n0 = scan_to(s, 10u8) as int;
                if n0 < j - i {
                    assert(full[n0 + i] == s[n0]);
                    assert(false);
                }
                if n0 > j - i {
                    assert(((j - i) as int) < s.len() ==> s[(j - i) as int] != 10u8);
                    assert((j as int) < full.len() ==> s[(j - i) as int] == full[(j - i) + i]);
                    assert(false);
                }
                assert(scan_to(s, 10u8) == j - i);
            }
            let mut line_end: usize = j;
            if j < b.len() && line_end > i && b[line_end - 1] == 13u8 {
                line_end -= 1;
            }
            let ghost line = full.subrange(i as int, line_end as int);
            proof {
                if j < b.len() {
                    assert(line =~= strip_cr(s.take(j - i)));
                } else {
                    assert(line =~= s);
                }
                // both ends of the line lie on character boundaries
                if line_end < full.len() {
                    assert(full[line_end as int] < 0x80);
                    lemma_ascii_boundary(full, line_end as int);
                } else {
                    is_char_boundary_start_end_of_seq(full);
                }
            }
            let mut k: usize = i;
            while k < line_end && b[k] != 32u8
                invariant
                    i <= k <= line_end <= b@.len(),
                    forall|l: int| i <= l < k ==> b@[l] != 32u8,
                decreases line_end - k,
            {
                k += 1;
            }
            proof {
                lemma_scan_to(line, 32u8);
                assert forall|l: int| 0 <= l < k - i implies line[l] != 32u8 by {
                    assert(line[l] == full[l + i]);
                }
                let sp = scan_to(line, 32u8) as int;
                if sp < k - i {
                    assert(full[sp + i] == line[sp]);
                    assert(false);
                }
                if sp > k - i {
                    assert(((k - i) as int) < line.len() ==> line[(k - i) as int] != 32u8);
                    if (k as int) < line_end {
                        assert(line[(k - i) as int] == full[(k - i) + i]);
                        assert(false);
                    }
                }
                assert(scan_to(line, 32u8) == k - i);
            }
            if k < line_end {
                let key: Vec<u8> = slice_to_vec(slice_subrange(b, i, k));
                let val: Vec<u8> = slice_to_vec(slice_subrange(b, k + 1, line_end));
                proof {
                    assert(full[k as int] == 32);
                    lemma_ascii_boundary(full, k as int);
                    lemma_valid_between(full, i as int, k as int);
                    lemma_valid_between(full, k as int + 1, line_end as int);
                    assert(key@ =~= line.take(k - i));
                    assert(val@ =~= line.skip((k - i) as int + 1));
                    assert(parse_line(line) == Some((key@, val@)));
                }
                trie_insert(&mut self.trie, key, val);
                proof {
                    assert(self@ == insert_line(m_in, line));
                }
            } else {
                proof {
                    assert(parse_line(line) is None);
                    assert(self@ == insert_line(m_in, line));
                }
            }
            proof {
                if j < b.len() {
                    assert(s.skip((j - i) as int + 1) =~= full.skip(j + 1));
                    assert(load_spec(m_in, s) == load_spec(self@, full.skip(j + 1)));
                    assert(full[j as int] == 10);
                    lemma_ascii_boundary(full, j as int);
                } else {
                    assert(load_spec(m_in, s) == insert_line(m_in, s));
                    assert(full.skip(full.len() as int) =~= Seq::<u8>::empty());
                    is_char_boundary_start_end_of_seq(full);
                }
            }
            if j < b.len() {
                i = j + 1;
            } else {
                i = j;
            }
        }
        proof {
            assert(b@.skip(i as int) =~= Seq::<u8>::empty());
        }
    }

    /// Returns the longest key of the dictionary that is a byte prefix of
    /// `query`, as a slice of `query`, with the key's value; `None` when no
    /// nonempty prefix of `query` is a key.
    pub fn prefix_match<'a, 'b>(&'a self, query: &'b [u8]) -> (r: Option<(&'b [u8], &'a [u8])>)
        ensures
            match r {
                Some((p, v)) => match_ok(self@, query@, p@) && self@[p@] == v@ && (forall|
                    j: Seq<u8>,
                |
                    match_ok(self@, query@, j) ==> j.len() <= p@.len()),
                None => !has_match(self@, query@),
            },
    {
        let mut n = query.len();
        while n > 0
            invariant
                n <= query@.len(),
                forall|j: Seq<u8>| match_ok(self@, query@, j) ==> j.len() <= n,
            decreases n,
        {
            let cand = slice_subrange(query, 0, n);
            match trie_get(&self.trie, cand) {
                Some(v) => {
                    proof {
                        assert(cand@ =~= query@.take(n as int));
                    }
                    return Some((cand, v));
                }
                None => {
                    proof {
                        assert forall|j: Seq<u8>| match_ok(self@, query@, j) implies j.len() <= n
                            - 1 by {
                            if j.len() == n {
                                assert(j == query@.take(n as int));
                                assert(j == cand@);
                            }
                        }
                    }
                    n = n - 1;
                }
            }
        }
        None
    }

    /// Rewrites `text` in one pass: at each point the longest dictionary key
    /// that is a byte prefix of the rest of the text is replaced by its
    /// value, and a character that starts no matching key is copied through
    /// unchanged.
    pub fn replace_all(&self, text: &str) -> (r: String)
        requires
            self.wf(),
        ensures
            encode_utf8(r@) == replace_spec(self@, text.spec_bytes()),
            r@ == decode_utf8(replace_spec(self@, text.spec_bytes())),
    {
        let b: &[u8] = text.as_bytes();
        let mut out: Vec<u8> = Vec::new();
        proof {
            encode_utf8_valid_utf8(text@);
        }
        let mut pos: usize = 0;
        proof {
            assert(b@.skip(0) =~= b@);
            assert(out@ =~= Seq::<u8>::empty());
            assert(out@ + replace_spec(self@, b@) =~= replace_spec(self@, b@));
        }
        while pos < b.len()
            invariant
                self.wf(),
                pos <= b@.len(),
                b@ == text.spec_bytes(),
                valid_utf8(b@.skip(pos as int)),
                valid_utf8(out@),
                out@ + replace_spec(self@, b@.skip(pos as int)) == replace_spec(self@, b@),
            decreases b@.len() - pos,
        {
            let ghost full = b@;
            let ghost t = full.skip(pos as int);
            let ghost out_in = out@;
            let rest = slice_subrange(b, pos, b.len());
            proof {
                assert(rest@ =~= t);
            }
            match self.prefix_match(rest) {
                Some((p, v)) => {
                    push_range(&mut out, v, 0, v.len());
                    proof {
                        let m = self@;
                        assert(has_best_match(m, t));
                        lemma_best_match_exists(m, t);
                        let bm = best_match(m, t);
                        assert(bm.len() == p@.len());
                        assert(bm == t.take(bm.len() as int));
                        assert(bm == p@);
                        assert(v@ =~= v@.subrange(0, v@.len() as int));
                        assert(m[bm] == v@);
                        // the consumed key ends at a character boundary
                        assert(valid_utf8(p@));
                        assert(p@ =~= t.take(p@.len() as int));
                        lemma_valid_prefix_boundary(t, p@.len() as int);
                        valid_utf8_split(t, p@.len() as int);
                        assert(t.skip(p@.len() as int) =~= t.subrange(
                            p@.len() as int,
                            t.len() as int,
                        ));
                        valid_utf8_concat(out_in, v@);
                        assert(full.skip(pos + p@.len()) =~= t.skip(p@.len() as int));
                        assert(out@ + replace_spec(self@, full.skip(pos + p@.len()))
                            =~= replace_spec(self@, full));
                    }
                    pos = pos + p.len();
                }
                None => {
                    proof {
                        if has_best_match(self@, t) {
                            let bm = best_match(self@, t);
                            assert(match_ok(self@, t, bm));
                        }
                        assert(valid_first_scalar(t));
                        lemma_first_scalar_len(t);
                    }
                    let lead = b[pos];
                    let cl: usize = if lead < 0x80 {
                        1
                    } else if lead < 0xe0 {
                        2
                    } else if lead < 0xf0 {
                        3
                    } else {
                        4
                    };
                    proof {
                        assert(t[0] == lead);
                        assert(cl == length_of_first_scalar(t));
                        assert(cl == step_len(t));
                    }
                    push_range(&mut out, b, pos, pos + cl);
                    proof {
                        let chunk = full.subrange(pos as int, pos + cl);
                        assert(chunk =~= t.take(cl as int));
                        assert(chunk =~= take_first_scalar(t));
                        assert(valid_utf8(pop_first_scalar(t)));
                        assert(t.skip(cl as int) =~= pop_first_scalar(t));
                        // the consumed chunk is itself one well-formed character
                        assert(valid_first_scalar(chunk));
                        assert(length_of_first_scalar(chunk) == cl);
                        assert(pop_first_scalar(chunk) =~= Seq::<u8>::empty());
                        assert(valid_utf8(pop_first_scalar(chunk)));
                        assert(valid_utf8(chunk));
                        valid_utf8_concat(out_in, chunk);
                        assert(full.skip(pos + cl) =~= t.skip(cl as int));
                        assert(out@ + replace_spec(self@, full.skip(pos + cl)) =~= replace_spec(
                            self@,
                            full,
                        ));
                    }
                    pos = pos + cl;
                }
            }
        }
        proof {
            assert(b@.skip(pos as int) =~= Seq::<u8>::empty());
            assert(out@ == replace_spec(self@, text.spec_bytes()));
        }
        match bytes_to_string(out) {
            Some(s) => {
                proof {
                    encode_utf8_decode_utf8(s@);
                }
                s
            },
            None => {
                proof {
                    assert(false);
                }
                vstd::pervasive::unreached()
            },
        }
    }
}

/// Appends `src[from..to]` to `out`, byte by byte.
fn push_range(out: &mut Vec<u8>, src: &[u8], from: usize, to: usize)
    requires
        from <= to <= src@.len(),
    ensures
        final(out)@ == old(out)@ + src@.subrange(from as int, to as int),
{
    let mut i = from;
    while i < to
        invariant
            from <= i <= to <= src@.len(),
            out@ == old(out)@ + src@.subrange(from as int, i as int),
        decreases to - i,
    {
        let byte = src[i];
        out.push(byte);
        proof {
            assert(out@ =~= old(out)@ + src@.subrange(from as int, i + 1));
        }
        i += 1;
    }
}

} // verus!
