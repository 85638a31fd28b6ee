//! Splitting a text into lines, and testing a line for a substring.
use vstd::prelude::*;
use vstd::string::StringSliceAdditionalSpecFns;
use vstd::utf8::*;

verus! {

broadcast use vstd::string::group_string_axioms;

/// The byte that ends a line.
pub const NEWLINE: u8 = 10;

/// The byte dropped from the end of a line that `NEWLINE` terminates.
pub const CARRIAGE_RETURN: u8 = 13;

/// The text cut at every `NEWLINE`, terminators dropped: one piece more than
/// there are newlines.
pub open spec fn pieces(b: Seq<u8>) -> Seq<Seq<u8>>
    decreases b.len(),
{
    if b.len() == 0 {
        seq![Seq::empty()]
    } else {
        let p = pieces(b.drop_last());
        if b.last() == NEWLINE {
            p.push(Seq::empty())
        } else {
            p.update(p.len() - 1, p.last().push(b.last()))
        }
    }
}

/// A line without its trailing `CARRIAGE_RETURN`, if it has one.
pub open spec fn strip_cr(l: Seq<u8>) -> Seq<u8> {
    if l.len() > 0 && l.last() == CARRIAGE_RETURN {
        l.drop_last()
    } else {
        l
    }
}

/// The lines of a text: each piece that a newline ends loses a trailing
/// carriage return; the piece after the last newline is a line only when it
/// is not empty, and keeps what it holds.
pub open spec fn lines_of(b: Seq<u8>) -> Seq<Seq<u8>> {
    let p = pieces(b);
    let ended = p.drop_last().map_values(|l: Seq<u8>| strip_cr(l));
    if p.last().len() == 0 {
        ended
    } else {
        ended.push(p.last())
    }
}

/// `q` stands in `h` from index `i` on.
pub open spec fn occurs_at(h: Seq<u8>, q: Seq<u8>, i: int) -> bool {
    0 <= i && i + q.len() <= h.len() && h.subrange(i, i + q.len()) == q
}

/// `q` stands somewhere in `h`, as a run of consecutive bytes.
pub open spec fn contains_bytes(h: Seq<u8>, q: Seq<u8>) -> bool {
    exists|i: int| occurs_at(h, q, i)
}

/// The bytes of each string of a sequence.
pub open spec fn bytes_of_all(v: Seq<&str>) -> Seq<Seq<u8>> {
    v.map_values(|s: &str| s.spec_bytes())
}

pub proof fn lemma_pieces_nonempty(b: Seq<u8>)
    ensures
        pieces(b).len() >= 1,
    decreases b.len(),
{
    if b.len() > 0 {
        lemma_pieces_nonempty(b.drop_last());
    }
}

/// An ASCII byte of a string's encoding marks a character boundary.
proof fn lemma_ascii_boundary(s: &str, i: int)
    requires
        0 <= i < s.spec_bytes().len(),
        s.spec_bytes()[i] < 0x80,
    ensures
        is_char_boundary(s.spec_bytes(), i),
{
    encode_utf8_valid_utf8(s@);
    is_char_boundary_iff_not_is_continuation_byte(s.spec_bytes(), i);
}

/// The byte after an ASCII byte starts a character, or ends the text.
proof fn lemma_after_ascii_boundary(b: Seq<u8>, k: int)
    requires
        valid_utf8(b),
        0 < k <= b.len(),
        b[k - 1] < 0x80,
    ensures
        is_char_boundary(b, k),
{
    is_char_boundary_start_end_of_seq(b);
    if k < b.len() {
        is_char_boundary_iff_not_is_continuation_byte(b, k - 1);
        valid_utf8_split(b, k - 1);
        let s = b.subrange(k - 1, b.len() as int);
        reveal_with_fuel(is_char_boundary, 2);
        assert(is_char_boundary(s, 1));
        is_char_boundary_iff_not_is_continuation_byte(s, 1);
        is_char_boundary_iff_not_is_continuation_byte(b, k);
    }
}

/// The bytes of `s` from `from` to `to`, both character boundaries.
pub(crate) fn slice<'a>(s: &'a str, from: usize, to: usize) -> (r: &'a str)
    requires
        from <= to <= s.spec_bytes().len(),
        is_char_boundary(s.spec_bytes(), from as int),
        is_char_boundary(s.spec_bytes(), to as int),
    ensures
        r.spec_bytes() == s.spec_bytes().subrange(from as int, to as int),
{
    let ghost b = s.spec_bytes();
    let (_, tail) = s.split_at(from);
    proof {
        let t = tail.spec_bytes();
        encode_utf8_valid_utf8(tail@);
        is_char_boundary_start_end_of_seq(t);
        encode_utf8_valid_utf8(s@);
        if to < b.len() {
            is_char_boundary_iff_not_is_continuation_byte(b, to as int);
            is_char_boundary_iff_not_is_continuation_byte(t, to - from);
        }
    }
    let (r, _) = tail.split_at(to - from);
    proof {
        assert(r.spec_bytes() =~= b.subrange(from as int, to as int));
    }
    r
}

/// The lines of `contents`, in order, without their terminators: a line
/// ends at each newline, and a carriage return just before that newline is
/// dropped too.
pub fn lines<'a>(contents: &'a str) -> (r: Vec<&'a str>)
    ensures
        bytes_of_all(r@) == lines_of(contents.spec_bytes()),
{
    let b = contents.as_bytes();
    let n = b.len();
    let mut out: Vec<&'a str> = Vec::new();
    let mut start: usize = 0;
    let mut i: usize = 0;
    proof {
        encode_utf8_valid_utf8(contents@);
        is_char_boundary_start_end_of_seq(b@);
        assert(b@.subrange(0, 0) =~= Seq::<u8>::empty());
        assert(pieces(b@.subrange(0, 0)).drop_last().map_values(|l: Seq<u8>| strip_cr(l))
            =~= bytes_of_all(out@));
    }
    while i < n
        invariant
            b@ == contents.spec_bytes(),
            valid_utf8(b@),
            n == b@.len(),
            start <= i <= n,
            is_char_boundary(b@, start as int),
            pieces(b@.subrange(0, i as int)).drop_last().map_values(|l: Seq<u8>| strip_cr(l))
                == bytes_of_all(out@),
            pieces(b@.subrange(0, i as int)).last() == b@.subrange(start as int, i as int),
        decreases n - i,
    {
        let ghost prev = pieces(b@.subrange(0, i as int));
        let ghost next = b@.subrange(0, i + 1);
        proof {
            assert(next.drop_last() =~= b@.subrange(0, i as int));
            lemma_pieces_nonempty(b@.subrange(0, i as int));
        }
        if b[i] == NEWLINE {
            let ghost before = out@;
            let mut end = i;
            if end > start && b[end - 1] == CARRIAGE_RETURN {
                end = end - 1;
            }
            proof {
                encode_utf8_valid_utf8(contents@);
                lemma_ascii_boundary(contents, end as int);
                lemma_after_ascii_boundary(b@, i + 1);
                assert(strip_cr(b@.subrange(start as int, i as int)) =~= b@.subrange(
                    start as int,
                    end as int,
                ));
            }
            let line = slice(contents, start, end);
            out.push(line);
            start = i + 1;
            proof {
                assert(pieces(next) == prev.push(Seq::empty()));
                assert(pieces(next).drop_last() =~= prev);
                assert(prev =~= prev.drop_last().push(prev.last()));
                assert(prev.map_values(|l: Seq<u8>| strip_cr(l)) =~= prev.drop_last().map_values(
                    |l: Seq<u8>| strip_cr(l),
                ).push(strip_cr(prev.last())));
                assert(out@ =~= before.push(line));
                assert(bytes_of_all(out@) =~= bytes_of_all(before).push(line.spec_bytes()));
            }
        } else {
            proof {
                assert(pieces(next) == prev.update(prev.len() - 1, prev.last().push(b@[i as int])));
                assert(pieces(next).drop_last() =~= prev.drop_last());
                assert(b@.subrange(start as int, i + 1) =~= b@.subrange(start as int, i as int).push(b@[i as int]));
            }
        }
        i = i + 1;
    }
    proof {
        assert(b@.subrange(0, n as int) =~= b@);
    }
    if start < n {
        proof {
            is_char_boundary_start_end_of_seq(b@);
        }
        let ghost before = out@;
        let line = slice(contents, start, n);
        out.push(line);
        proof {
            assert(out@ =~= before.push(line));
            assert(bytes_of_all(out@) =~= bytes_of_all(before).push(line.spec_bytes()));
        }
    } else {
        proof {
            assert(b@.subrange(start as int, n as int) =~= Seq::<u8>::empty());
        }
    }
    out
}

/// Whether `needle` stands in `haystack` as a run of consecutive bytes.
pub fn contains(haystack: &str, needle: &str) -> (r: bool)
    ensures
        r == contains_bytes(haystack.spec_bytes(), needle.spec_bytes()),
{
    let h = haystack.as_bytes();
    let q = needle.as_bytes();
    if q.len() > h.len() {
        return false;
    }
    let hl = h.len();
    let last = hl - q.len();
    let mut i: usize = 0;
    while i <= last
        invariant
            h@ == haystack.spec_bytes(),
            q@ == needle.spec_bytes(),
            q@.len() <= h@.len(),
            hl == h@.len(),
            last == h@.len() - q@.len(),
            forall|k: int| 0 <= k < i ==> !occurs_at(h@, q@, k),
        decreases last + 1 - i,
    {
        let mut j: usize = 0;
        while j < q.len() && h[i + j] == q[j]
            invariant
                i <= last,
                hl == h@.len(),
                last == h@.len() - q@.len(),
                j <= q@.len(),
                forall|t: int| 0 <= t < j ==> h@[i + t] == q@[t],
            decreases q@.len() - j,
        {
            j = j + 1;
        }
        if j == q.len() {
            proof {
                assert(h@.subrange(i as int, i + q@.len()) =~= q@);
                assert(occurs_at(h@, q@, i as int));
            }
            return true;
        }
        proof {
            if occurs_at(h@, q@, i as int) {
                assert(h@.subrange(i as int, i + q@.len())[j as int] == h@[i + j]);
            }
        }
        i = i + 1;
    }
    proof {
        assert forall|k: int| !occurs_at(h@, q@, k) by {
            if 0 <= k < i {
            }
        }
    }
    false
}

} // verus!
