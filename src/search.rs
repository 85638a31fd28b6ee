//! Picking the lines of a text that contain a query, with or without regard
//! to case.
use vstd::prelude::*;
use vstd::string::StringSliceAdditionalSpecFns;
use vstd::utf8::*;
use crate::lines::{bytes_of_all, contains, contains_bytes, lines, lines_of, occurs_at};

verus! {

broadcast use vstd::string::group_string_axioms;

/// What `str::to_lowercase` makes of a string.
pub uninterp spec fn lower_of(s: Seq<char>) -> Seq<char>;

/// Relies on `str::to_lowercase`: the lower-case form by Unicode's default
/// mapping, which depends on the characters alone; an empty string stays
/// empty.
#[verifier::external_body]
fn lowercase(s: &str) -> (r: String)
    ensures
        r@ == lower_of(s@),
        s@.len() == 0 ==> r@.len() == 0,
{
    s.to_lowercase()
}

/// The encoding of the lower-case form of the text that `b` encodes.
pub open spec fn folded(b: Seq<u8>) -> Seq<u8> {
    encode_utf8(lower_of(decode_utf8(b)))
}

/// The lines that contain `q`, in order.
pub open spec fn keep_containing(lines: Seq<Seq<u8>>, q: Seq<u8>) -> Seq<Seq<u8>>
    decreases lines.len(),
{
    if lines.len() == 0 {
        seq![]
    } else {
        let kept = keep_containing(lines.drop_last(), q);
        if contains_bytes(lines.last(), q) {
            kept.push(lines.last())
        } else {
            kept
        }
    }
}

/// The lines whose lower-case form contains the lower-case form of `q`, in
/// order, as they stand.
pub open spec fn keep_containing_folded(lines: Seq<Seq<u8>>, q: Seq<u8>) -> Seq<Seq<u8>>
    decreases lines.len(),
{
    if lines.len() == 0 {
        seq![]
    } else {
        let kept = keep_containing_folded(lines.drop_last(), q);
        if contains_bytes(folded(lines.last()), folded(q)) {
            kept.push(lines.last())
        } else {
            kept
        }
    }
}

/// With the empty query every line is kept.
proof fn lemma_keep_all(lines: Seq<Seq<u8>>, q: Seq<u8>)
    requires
        q.len() == 0,
    ensures
        keep_containing(lines, q) == lines,
    decreases lines.len(),
{
    if lines.len() > 0 {
        lemma_keep_all(lines.drop_last(), q);
        assert(lines.last().subrange(0, 0) =~= q);
        assert(occurs_at(lines.last(), q, 0));
        assert(lines.drop_last().push(lines.last()) =~= lines);
    }
}

/// With a query whose lower-case form is empty every line is kept.
proof fn lemma_keep_all_folded(lines: Seq<Seq<u8>>, q: Seq<u8>)
    requires
        folded(q).len() == 0,
    ensures
        keep_containing_folded(lines, q) == lines,
    decreases lines.len(),
{
    if lines.len() > 0 {
        lemma_keep_all_folded(lines.drop_last(), q);
        assert(folded(lines.last()).subrange(0, 0) =~= folded(q));
        assert(occurs_at(folded(lines.last()), folded(q), 0));
        assert(lines.drop_last().push(lines.last()) =~= lines);
    }
}

/// The lines of `contents` that contain `query` exactly, in their order,
/// duplicates kept. The empty query keeps every line.
pub fn search<'a>(query: &str, contents: &'a str) -> (r: Vec<&'a str>)
    ensures
        bytes_of_all(r@) == keep_containing(lines_of(contents.spec_bytes()), query.spec_bytes()),
        query@.len() == 0 ==> bytes_of_all(r@) == lines_of(contents.spec_bytes()),
{
    let all = lines(contents);
    let ghost ls = bytes_of_all(all@);
    let ghost q = query.spec_bytes();
    let mut out: Vec<&'a str> = Vec::new();
    let mut i: usize = 0;
    proof {
        assert(ls.subrange(0, 0) =~= Seq::<Seq<u8>>::empty());
        assert(bytes_of_all(out@) =~= Seq::<Seq<u8>>::empty());
    }
    while i < all.len()
        invariant
            ls == bytes_of_all(all@),
            q == query.spec_bytes(),
            i <= all@.len(),
            bytes_of_all(out@) == keep_containing(ls.subrange(0, i as int), q),
        decreases all@.len() - i,
    {
        let line = all[i];
        let ghost before = out@;
        proof {
            assert(ls.subrange(0, i + 1).drop_last() =~= ls.subrange(0, i as int));
        }
        if contains(line, query) {
            out.push(line);
            proof {
                assert(out@ =~= before.push(line));
                assert(bytes_of_all(out@) =~= bytes_of_all(before).push(line.spec_bytes()));
            }
        }
        i = i + 1;
    }
    proof {
        assert(ls.subrange(0, i as int) =~= ls);
        if query@.len() == 0 {
            lemma_keep_all(ls, q);
        }
    }
    out
}

/// The lines of `contents` whose lower-case form contains the lower-case form
/// of `query`, in their order, as they stand in `contents`. The empty query
/// keeps every line.
pub fn search_case_insensitive<'a>(query: &str, contents: &'a str) -> (r: Vec<&'a str>)
    ensures
        bytes_of_all(r@) == keep_containing_folded(
            lines_of(contents.spec_bytes()),
            query.spec_bytes(),
        ),
        query@.len() == 0 ==> bytes_of_all(r@) == lines_of(contents.spec_bytes()),
{
    broadcast use encode_utf8_decode_utf8;

    let folded_query = lowercase(query);
    let fq = folded_query.as_str();
    let all = lines(contents);
    let ghost ls = bytes_of_all(all@);
    let ghost q = query.spec_bytes();
    let mut out: Vec<&'a str> = Vec::new();
    let mut i: usize = 0;
    proof {
        assert(ls.subrange(0, 0) =~= Seq::<Seq<u8>>::empty());
        assert(bytes_of_all(out@) =~= Seq::<Seq<u8>>::empty());
    }
    while i < all.len()
        invariant
            ls == bytes_of_all(all@),
            q == query.spec_bytes(),
            fq.spec_bytes() == folded(q),
            i <= all@.len(),
            bytes_of_all(out@) == keep_containing_folded(ls.subrange(0, i as int), q),
        decreases all@.len() - i,
    {
        let line = all[i];
        let ghost before = out@;
        proof {
            assert(ls.subrange(0, i + 1).drop_last() =~= ls.subrange(0, i as int));
        }
        let folded_line = lowercase(line);
        let fl = folded_line.as_str();
        proof {
            assert(ls[i as int] == line.spec_bytes());
            encode_utf8_decode_utf8(line@);
            assert(decode_utf8(line.spec_bytes()) == line@);
            assert(fl.spec_bytes() == folded(line.spec_bytes()));
        }
        if contains(fl, fq) {
            out.push(line);
            proof {
                assert(out@ =~= before.push(line));
                assert(bytes_of_all(out@) =~= bytes_of_all(before).push(line.spec_bytes()));
            }
        }
        i = i + 1;
    }
    proof {
        assert(ls.subrange(0, i as int) =~= ls);
        if query@.len() == 0 {
            assert(folded(q).len() == 0);
            lemma_keep_all_folded(ls, q);
        }
    }
    out
}

/// `a` is `b` with some items left out, the rest in their order.
pub open spec fn is_subsequence(a: Seq<Seq<u8>>, b: Seq<Seq<u8>>) -> bool
    decreases b.len(),
{
    if a.len() == 0 {
        true
    } else if b.len() == 0 {
        false
    } else {
        (a.last() == b.last() && is_subsequence(a.drop_last(), b.drop_last()))
            || is_subsequence(a, b.drop_last())
    }
}

proof fn lemma_kept_lines(lines: Seq<Seq<u8>>, q: Seq<u8>)
    ensures
        is_subsequence(keep_containing(lines, q), lines),
        forall|k: int|
            0 <= k < keep_containing(lines, q).len() ==> contains_bytes(
                #[trigger] keep_containing(lines, q)[k],
                q,
            ),
    decreases lines.len(),
{
    if lines.len() > 0 {
        lemma_kept_lines(lines.drop_last(), q);
        let kept = keep_containing(lines.drop_last(), q);
        if contains_bytes(lines.last(), q) {
            assert(kept.push(lines.last()).drop_last() =~= kept);
        }
    }
}

/// The exact search keeps only lines that contain the query unchanged, and
/// keeps them in the order of the text: its result is the text's lines with
/// some left out.
pub proof fn lemma_search_keeps_order(contents: Seq<u8>, q: Seq<u8>)
    ensures
        is_subsequence(keep_containing(lines_of(contents), q), lines_of(contents)),
        forall|k: int|
            0 <= k < keep_containing(lines_of(contents), q).len() ==> contains_bytes(
                #[trigger] keep_containing(lines_of(contents), q)[k],
                q,
            ),
{
    lemma_kept_lines(lines_of(contents), q);
}

/// Lowering `l` lowers each occurrence of `q` in it in place, and the text
/// around it on its own.
pub open spec fn folds_in_place(l: Seq<u8>, q: Seq<u8>) -> bool {
    forall|i: int|
        #[trigger] occurs_at(l, q, i) ==> folded(l) == folded(l.subrange(0, i)) + folded(q) + folded(
            l.subrange(i + q.len(), l.len() as int),
        )
}

proof fn lemma_folded_keeps_line(l: Seq<u8>, q: Seq<u8>)
    requires
        folds_in_place(l, q),
        contains_bytes(l, q),
    ensures
        contains_bytes(folded(l), folded(q)),
{
    let i = choose|i: int| occurs_at(l, q, i);
    let pre = folded(l.subrange(0, i));
    let j = pre.len() as int;
    assert(folded(l).subrange(j, j + folded(q).len()) =~= folded(q));
    assert(occurs_at(folded(l), folded(q), j));
}

proof fn lemma_folded_keeps_all(lines: Seq<Seq<u8>>, q: Seq<u8>)
    requires
        forall|k: int| 0 <= k < lines.len() ==> folds_in_place(#[trigger] lines[k], q),
    ensures
        forall|l: Seq<u8>|
            #[trigger] keep_containing(lines, q).contains(l) ==> keep_containing_folded(
                lines,
                q,
            ).contains(l),
    decreases lines.len(),
{
    if lines.len() > 0 {
        let rest = lines.drop_last();
        assert forall|k: int| 0 <= k < rest.len() implies folds_in_place(#[trigger] rest[k], q) by {
            assert(rest[k] == lines[k]);
        }
        lemma_folded_keeps_all(rest, q);
        let exact = keep_containing(rest, q);
        let blind = keep_containing_folded(rest, q);
        assert(folds_in_place(lines[lines.len() - 1], q));
        if contains_bytes(lines.last(), q) {
            lemma_folded_keeps_line(lines.last(), q);
        }
        assert forall|l: Seq<u8>| #[trigger]
            keep_containing(lines, q).contains(l) implies keep_containing_folded(
            lines,
            q,
        ).contains(l) by {
            if contains_bytes(lines.last(), q) {
                if l == lines.last() {
                    assert(keep_containing_folded(lines, q).last() == l);
                } else {
                    let k = choose|k: int| 0 <= k < exact.push(lines.last()).len() && exact.push(lines.last())[k] == l;
                    assert(exact[k] == l);
                    assert(exact.contains(l));
                    let m = choose|m: int| 0 <= m < blind.len() && blind[m] == l;
                    if contains_bytes(folded(lines.last()), folded(q)) {
                        assert(blind.push(lines.last())[m] == l);
                    }
                }
            } else {
                assert(exact.contains(l));
                let m = choose|m: int| 0 <= m < blind.len() && blind[m] == l;
                if contains_bytes(folded(lines.last()), folded(q)) {
                    assert(blind.push(lines.last())[m] == l);
                }
            }
        }
    }
}

/// Every line that the exact search keeps, the search that ignores case
/// keeps too, on a text whose lines lower the query in place wherever they
/// contain it.
pub proof fn lemma_case_blind_keeps_exact_matches(contents: Seq<u8>, q: Seq<u8>)
    requires
        forall|k: int|
            0 <= k < lines_of(contents).len() ==> folds_in_place(#[trigger] lines_of(contents)[k], q),
    ensures
        forall|l: Seq<u8>|
            #[trigger] keep_containing(lines_of(contents), q).contains(l) ==> keep_containing_folded(
                lines_of(contents),
                q,
            ).contains(l),
{
    lemma_folded_keeps_all(lines_of(contents), q);
}

} // verus!
