//! Line-oriented text search: pick the lines of a text that contain a query,
//! optionally ignoring case, and mark each occurrence of the query.
use vstd::prelude::*;
use vstd::string::{StringExecFns, StringSliceAdditionalSpecFns};
use vstd::utf8::encode_utf8;

pub mod config;
pub mod highlight;
pub mod lines;
pub mod search;

pub use config::{Config, ConfigError};
pub use highlight::{highlight_query, Pattern, PatternError};
pub use search::{search, search_case_insensitive};

use crate::highlight::{highlighted, pattern_compiles};
use crate::lines::{bytes_of_all, lines_of};
use crate::search::{keep_containing, keep_containing_folded};

verus! {

broadcast use vstd::string::group_string_axioms;

/// The encoding of each string of a sequence.
pub open spec fn encoded_all(v: Seq<String>) -> Seq<Seq<u8>> {
    v.map_values(|s: String| encode_utf8(s@))
}

/// The lines of `contents` that `config` selects, in order.
pub open spec fn selected(config: Config, contents: Seq<u8>) -> Seq<Seq<u8>> {
    if config.ignore_case {
        keep_containing_folded(lines_of(contents), encode_utf8(config.query@))
    } else {
        keep_containing(lines_of(contents), encode_utf8(config.query@))
    }
}

/// Each line with the matches of the query marked.
pub open spec fn highlighted_all(ls: Seq<Seq<u8>>, query: Seq<char>, ignore_case: bool) -> Seq<Seq<u8>> {
    ls.map_values(|l: Seq<u8>| highlighted(l, query, ignore_case))
}

/// The result of one search: the lines of `contents` that contain the query,
/// in order, case ignored exactly when the configuration says so, and with
/// every match marked when `highlight` is set. With `highlight` set the query
/// is compiled once, and the search fails exactly when it is not a valid
/// expression; without it the search does not fail.
pub fn run(config: &Config, contents: &str, highlight: bool) -> (r: Result<Vec<String>, PatternError>)
    ensures
        r is Ok == (!highlight || pattern_compiles(config.query@, config.ignore_case)),
        r matches Ok(out) ==> encoded_all(out@) == if highlight {
            highlighted_all(
                selected(*config, contents.spec_bytes()),
                config.query@,
                config.ignore_case,
            )
        } else {
            selected(*config, contents.spec_bytes())
        },
{
    let query = config.query.as_str();
    let found = if config.ignore_case {
        search_case_insensitive(query, contents)
    } else {
        search(query, contents)
    };
    let ghost ls = bytes_of_all(found@);
    let pattern = if highlight {
        Some(Pattern::new(query, config.ignore_case)?)
    } else {
        None
    };
    let mut out: Vec<String> = Vec::new();
    let mut i: usize = 0;
    while i < found.len()
        invariant
            ls == bytes_of_all(found@),
            i <= found@.len(),
            out@.len() == i,
            pattern is Some == highlight,
            pattern matches Some(p) ==> p.source() == config.query@ && p.ignores_case()
                == config.ignore_case,
            forall|j: int|
                0 <= j < i ==> encode_utf8(#[trigger] out@[j]@) == if highlight {
                    highlighted(ls[j], config.query@, config.ignore_case)
                } else {
                    ls[j]
                },
        decreases found@.len() - i,
    {
        let line = found[i];
        let shown = match &pattern {
            Some(p) => p.highlight(line),
            None => String::from_str(line),
        };
        out.push(shown);
        i = i + 1;
    }
    proof {
        assert(config.query@ == query@);
        if highlight {
            assert(encoded_all(out@) =~= highlighted_all(ls, config.query@, config.ignore_case));
        } else {
            assert(encoded_all(out@) =~= ls);
        }
    }
    Ok(out)
}

} // verus!
