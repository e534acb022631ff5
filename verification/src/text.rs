//! A file's text as lines.

use vstd::prelude::*;
use vstd::string::StringExecFns;
use vstd::string::StringSliceAdditionalSpecFns;
use vstd::utf8::{
    encode_utf8, encode_utf8_valid_utf8, is_char_boundary, is_char_boundary_iff_not_is_continuation_byte,
    is_char_boundary_start_end_of_seq,
};

verus! {

/// A line without the carriage return that ends it, if one does.
pub open spec fn strip_cr(line: Seq<u8>) -> Seq<u8> {
    if line.len() > 0 && line.last() == 13u8 {
        line.drop_last()
    } else {
        line
    }
}

/// The lines of `bytes`, where `cur` is the line read so far: a newline byte
/// ends a line, dropping a carriage return right before it; what follows the
/// last newline is a last line when it is not empty.
pub open spec fn split_lines(bytes: Seq<u8>, cur: Seq<u8>) -> Seq<Seq<u8>>
    decreases bytes.len(),
{
    if bytes.len() == 0 {
        if cur.len() == 0 {
            seq![]
        } else {
            seq![cur]
        }
    } else if bytes[0] == 10u8 {
        seq![strip_cr(cur)] + split_lines(bytes.drop_first(), seq![])
    } else {
        split_lines(bytes.drop_first(), cur.push(bytes[0]))
    }
}

/// The lines of a text, given by its UTF-8 bytes.
pub open spec fn text_lines(bytes: Seq<u8>) -> Seq<Seq<u8>> {
    split_lines(bytes, seq![])
}

/// The UTF-8 bytes of each string.
pub open spec fn strings_bytes(v: Seq<String>) -> Seq<Seq<u8>> {
    v.map_values(|s: String| encode_utf8(s@))
}

proof fn lemma_scan(b: Seq<u8>, cur: Seq<u8>, k: int)
    requires
        0 <= k <= b.len(),
        forall|x: int| 0 <= x < k ==> b[x] != 10u8,
    ensures
        split_lines(b, cur) == split_lines(b.skip(k), cur + b.take(k)),
    decreases k,
{
    if k > 0 {
        assert(b[0] != 10u8);
        let rest = b.drop_first();
        assert forall|x: int| 0 <= x < k - 1 implies rest[x] != 10u8 by {
            assert(rest[x] == b[x + 1]);
        }
        lemma_scan(rest, cur.push(b[0]), k - 1);
        assert(rest.skip(k - 1) =~= b.skip(k));
        assert(cur.push(b[0]) + rest.take(k - 1) =~= cur + b.take(k));
    } else {
        assert(b.skip(0) =~= b);
        assert(cur + b.take(0) =~= cur);
    }
}

/// The text made of the lines `ls`, each followed by a newline, with a
/// carriage return before the newline where `crs` says so, and then `tail`.
pub open spec fn terminated_text(ls: Seq<Seq<u8>>, crs: Seq<bool>, tail: Seq<u8>) -> Seq<u8>
    decreases ls.len(),
{
    if ls.len() == 0 {
        tail
    } else {
        ls[0] + (if crs[0] {
            seq![13u8]
        } else {
            seq![]
        }) + seq![10u8] + terminated_text(ls.drop_first(), crs.drop_first(), tail)
    }
}

/// Law: lines are exactly the bytes between newlines, with only a carriage
/// return right before a newline dropped. Writing lines without newlines,
/// each ended by `\n` or `\r\n` (a line ended by a bare `\n` not ending in
/// `\r`), then a last piece without a newline, and splitting that text gives
/// back the lines, then the last piece when it is not empty.
pub proof fn lemma_lines_of_written_text(ls: Seq<Seq<u8>>, crs: Seq<bool>, tail: Seq<u8>)
    requires
        crs.len() == ls.len(),
        forall|i: int, j: int| 0 <= i < ls.len() && 0 <= j < ls[i].len() ==> #[trigger] ls[i][j] != 10u8,
        forall|i: int| 0 <= i < ls.len() && !crs[i] && ls[i].len() > 0 ==> #[trigger] ls[i].last() != 13u8,
        forall|j: int| 0 <= j < tail.len() ==> tail[j] != 10u8,
    ensures
        text_lines(terminated_text(ls, crs, tail)) == ls + (if tail.len() > 0 {
            seq![tail]
        } else {
            Seq::<Seq<u8>>::empty()
        }),
    decreases ls.len(),
{
    let t = terminated_text(ls, crs, tail);
    if ls.len() == 0 {
        lemma_scan(tail, seq![], tail.len() as int);
        assert(tail.skip(tail.len() as int) =~= Seq::<u8>::empty());
        assert(Seq::<u8>::empty() + tail.take(tail.len() as int) =~= tail);
        assert(ls + Seq::<Seq<u8>>::empty() =~= Seq::<Seq<u8>>::empty());
        assert(ls + seq![tail] =~= seq![tail]);
    } else {
        let l0 = ls[0];
        let rest = ls.drop_first();
        let crs_rest = crs.drop_first();
        assert forall|i: int, j: int| 0 <= i < rest.len() && 0 <= j < rest[i].len() implies #[trigger] rest[i][j] != 10u8 by {
            assert(rest[i] == ls[i + 1]);
            assert(ls[i + 1][j] != 10u8);
        }
        assert forall|i: int| 0 <= i < rest.len() && !crs_rest[i] && rest[i].len() > 0 implies #[trigger] rest[i].last() != 13u8 by {
            assert(rest[i] == ls[i + 1]);
            assert(crs_rest[i] == crs[i + 1]);
            assert(ls[i + 1].last() != 13u8);
        }
        lemma_lines_of_written_text(rest, crs_rest, tail);
        let r = terminated_text(rest, crs_rest, tail);
        let x = l0 + (if crs[0] {
            seq![13u8]
        } else {
            Seq::<u8>::empty()
        });
        assert(t =~= x + (seq![10u8] + r));
        assert forall|j: int| 0 <= j < x.len() implies t[j] != 10u8 by {
            assert(t[j] == x[j]);
            if j < l0.len() {
                assert(ls[0][j] != 10u8);
            }
        }
        lemma_scan(t, seq![], x.len() as int);
        assert(t.take(x.len() as int) =~= x);
        assert(Seq::<u8>::empty() + x =~= x);
        let s = t.skip(x.len() as int);
        assert(s =~= seq![10u8] + r);
        assert(s[0] == 10u8);
        assert(s.drop_first() =~= r);
        if crs[0] {
            assert(strip_cr(x) =~= l0);
        } else {
            assert(x =~= l0);
            if l0.len() > 0 {
                assert(ls[0].last() != 13u8);
            }
            assert(strip_cr(x) == l0);
        }
        let last = if tail.len() > 0 {
            seq![tail]
        } else {
            Seq::<Seq<u8>>::empty()
        };
        assert(seq![l0] + (rest + last) =~= ls + last);
    }
}

/// The lines of `text`, as `str::lines` gives them: split at each `\n`, a
/// `\r` right before it dropped, and no last line after a final `\n`.
pub fn lines_of(text: &str) -> (lines: Vec<String>)
    ensures
        strings_bytes(lines@) == text_lines(text.spec_bytes()),
{
    let mut lines: Vec<String> = Vec::new();
    let mut rest: &str = text;
    proof {
        assert(strings_bytes(lines@) + split_lines(rest.spec_bytes(), seq![]) =~= text_lines(text.spec_bytes()));
    }
    loop
        invariant_except_break
            strings_bytes(lines@) + split_lines(rest.spec_bytes(), seq![]) == text_lines(text.spec_bytes()),
        ensures
            strings_bytes(lines@) == text_lines(text.spec_bytes()),
        decreases rest.spec_bytes().len(),
    {
        let bytes = rest.as_bytes();
        let n = bytes.len();
        let ghost rb = rest.spec_bytes();
        if n == 0 {
            proof {
                assert(rb.len() == 0);
                assert(strings_bytes(lines@) + Seq::<Seq<u8>>::empty() =~= strings_bytes(lines@));
            }
            break;
        }
        let mut k: usize = 0;
        while k < n && bytes[k] != 10u8
            invariant
                0 <= k <= n,
                n == bytes@.len(),
                bytes@ == rb,
                forall|x: int| 0 <= x < k ==> bytes@[x] != 10u8,
            decreases n - k,
        {
            k += 1;
        }
        proof {
            lemma_scan(rb, seq![], k as int);
            assert(Seq::<u8>::empty() + rb.take(k as int) =~= rb.take(k as int));
            encode_utf8_valid_utf8(rest@);
        }
        if k == n {
            let ghost before = lines@;
            lines.push(String::from_str(rest));
            proof {
                assert(rb.skip(k as int) =~= Seq::<u8>::empty());
                assert(rb.take(k as int) =~= rb);
                assert(strings_bytes(lines@) =~= strings_bytes(before).push(rb));
                assert(strings_bytes(before) + seq![rb] =~= strings_bytes(before).push(rb));
            }
            break;
        }
        proof {
            is_char_boundary_iff_not_is_continuation_byte(rb, k as int);
        }
        let (full, tail0) = rest.split_at(k);
        let ghost tb = tail0.spec_bytes();
        proof {
            encode_utf8_valid_utf8(tail0@);
            assert(tb[0] == 10u8);
            if tb.len() > 1 {
                reveal_with_fuel(is_char_boundary, 2);
            } else {
                is_char_boundary_start_end_of_seq(tb);
            }
            assert(is_char_boundary(tb, 1));
        }
        let (_nl, tail) = tail0.split_at(1);
        let line = if k > 0 && bytes[k - 1] == 13u8 {
            proof {
                encode_utf8_valid_utf8(full@);
                is_char_boundary_iff_not_is_continuation_byte(full.spec_bytes(), k - 1);
            }
            let (stripped, _cr) = full.split_at(k - 1);
            proof {
                assert(stripped.spec_bytes() =~= strip_cr(rb.take(k as int)));
            }
            stripped
        } else {
            proof {
                assert(full.spec_bytes() =~= strip_cr(rb.take(k as int)));
            }
            full
        };
        let ghost before = lines@;
        lines.push(String::from_str(line));
        proof {
            let s = rb.skip(k as int);
            assert(s[0] == 10u8);
            assert(s.drop_first() =~= tail.spec_bytes());
            assert(split_lines(s, rb.take(k as int)) == seq![strip_cr(rb.take(k as int))] + split_lines(s.drop_first(), seq![]));
            assert(strings_bytes(lines@) =~= strings_bytes(before).push(strip_cr(rb.take(k as int))));
            assert(strings_bytes(lines@) + split_lines(tail.spec_bytes(), seq![]) =~= strings_bytes(before) + (seq![
                strip_cr(rb.take(k as int)),
            ] + split_lines(tail.spec_bytes(), seq![])));
        }
        rest = tail;
    }
    lines
}

} // verus!
