//! The serializations of RDF, selected by the extension of a file.

use vstd::prelude::*;
use vstd::string::*;

use crate::error::ZarrDfError;

verus! {

/// The textual serializations of RDF that a source can be written in.
#[derive(Clone, Copy, Debug, PartialEq, Eq, Structural)]
pub enum RdfFormat {
    NTriples,
    Turtle,
    RdfXml,
    TriG,
    N3,
    NQuads,
}

/// The extension of `path`: what follows its last dot. A path without a dot
/// has no extension.
pub open spec fn extension(path: Seq<char>) -> Option<Seq<char>>
    decreases path.len(),
{
    if path.len() == 0 {
        None
    } else if path.last() == '.' {
        Some(Seq::empty())
    } else {
        match extension(path.drop_last()) {
            Some(name) => Some(name.push(path.last())),
            None => None,
        }
    }
}

/// The serialization that the extension `name` selects, if it selects one.
pub open spec fn format_named(name: Seq<char>) -> Option<RdfFormat> {
    if name == "nt"@ {
        Some(RdfFormat::NTriples)
    } else if name == "ttl"@ {
        Some(RdfFormat::Turtle)
    } else if name == "rdf"@ {
        Some(RdfFormat::RdfXml)
    } else if name == "trig"@ {
        Some(RdfFormat::TriG)
    } else if name == "n3"@ {
        Some(RdfFormat::N3)
    } else if name == "nq"@ {
        Some(RdfFormat::NQuads)
    } else {
        None
    }
}

/// The serialization that `path` selects: the one that its extension
/// selects. A path without an extension selects none, whatever its name.
pub open spec fn format_of(path: Seq<char>) -> Option<RdfFormat> {
    match extension(path) {
        Some(name) => format_named(name),
        None => None,
    }
}

/// The name under which a path that selects no serialization is reported:
/// its extension, and all of the path where it has none.
pub open spec fn unknown_name(path: Seq<char>) -> Seq<char> {
    match extension(path) {
        Some(name) => name,
        None => path,
    }
}

/// Whether two strings hold the same characters.
fn same_text(a: &str, b: &str) -> (same: bool)
    ensures
        same == (a@ == b@),
{
    let a = String::from_str(a);
    let b = String::from_str(b);
    a == b
}

impl RdfFormat {
    /// The serialization of the source at `path`, selected by its extension.
    /// A path without a dot has no extension and selects none.
    pub fn from_path(path: &str) -> (result: Result<RdfFormat, ZarrDfError>)
        ensures
            match format_of(path@) {
                Some(format) => result == Ok::<RdfFormat, ZarrDfError>(format),
                None => result matches Err(ZarrDfError::UnknownFormat(name)) && name@
                    == unknown_name(path@),
            },
    {
        let total = path.unicode_len();
        let mut dotted = false;
        let mut start: usize = 0;
        let mut seen: usize = 0;
        for c in it: path.chars()
            invariant
                it.seq() == path@,
                total == path@.len(),
                seen == it.index(),
                start <= seen,
                extension(path@.take(seen as int)) == if dotted {
                    Some(path@.subrange(start as int, seen as int))
                } else {
                    None
                },
        {
            proof {
                assert(path@.take(seen + 1).drop_last() =~= path@.take(seen as int));
                assert(path@.take(seen + 1).last() == c);
            }
            seen += 1;
            if c == '.' {
                dotted = true;
                start = seen;
                assert(path@.subrange(start as int, seen as int) =~= Seq::<char>::empty());
            } else {
                assert(path@.subrange(start as int, seen as int) =~= path@.subrange(
                    start as int,
                    seen - 1,
                ).push(c));
            }
        }
        proof {
            assert(path@.take(seen as int) =~= path@);
        }
        if dotted {
            RdfFormat::from_str(path.substring_char(start, total))
        } else {
            Err(ZarrDfError::UnknownFormat(String::from_str(path)))
        }
    }

    /// The serialization that the extension `s` selects.
    pub fn from_str(s: &str) -> (result: Result<RdfFormat, ZarrDfError>)
        ensures
            match format_named(s@) {
                Some(format) => result == Ok::<RdfFormat, ZarrDfError>(format),
                None => result matches Err(ZarrDfError::UnknownFormat(name)) && name@ == s@,
            },
    {
        if same_text(s, "nt") {
            Ok(RdfFormat::NTriples)
        } else if same_text(s, "ttl") {
            Ok(RdfFormat::Turtle)
        } else if same_text(s, "rdf") {
            Ok(RdfFormat::RdfXml)
        } else if same_text(s, "trig") {
            Ok(RdfFormat::TriG)
        } else if same_text(s, "n3") {
            Ok(RdfFormat::N3)
        } else if same_text(s, "nq") {
            Ok(RdfFormat::NQuads)
        } else {
            Err(ZarrDfError::UnknownFormat(String::from_str(s)))
        }
    }
}

} // verus!
