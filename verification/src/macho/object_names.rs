//! Names of object files as the linker records them.
//!
//! A name is either the path of an object file, or the path of a static
//! archive followed by the name of one of its members in parentheses, as in
//! `libjs_static.a(Unified_cpp_js_src13.o)`.

use crate::macho::functions::copy_bytes;
use vstd::prelude::*;
use vstd::slice::slice_subrange;

verus! {

/// The byte `(`.
pub const OPEN_PAREN: u8 = 40;

/// The byte `)`.
pub const CLOSE_PAREN: u8 = 41;

/// Index of the first `(` at or after `from`, if there is one.
pub open spec fn paren_index_from(name: Seq<u8>, from: int) -> Option<int>
    decreases name.len() - from,
{
    if from < 0 || from >= name.len() {
        None
    } else if name[from] == OPEN_PAREN {
        Some(from)
    } else {
        paren_index_from(name, from + 1)
    }
}

/// Index of the first `(` in the name, if there is one. A name with one
/// refers to a member of an archive.
pub open spec fn paren_index(name: Seq<u8>) -> Option<int> {
    paren_index_from(name, 0)
}

/// The text without the `(` that it starts with, however many there are.
pub open spec fn trim_start_parens(text: Seq<u8>) -> Seq<u8>
    decreases text.len(),
{
    if text.len() > 0 && text[0] == OPEN_PAREN {
        trim_start_parens(text.drop_first())
    } else {
        text
    }
}

/// The text without the `)` that it ends with, however many there are.
pub open spec fn trim_end_parens(text: Seq<u8>) -> Seq<u8>
    decreases text.len(),
{
    if text.len() > 0 && text.last() == CLOSE_PAREN {
        trim_end_parens(text.drop_last())
    } else {
        text
    }
}

/// The path of the archive in a name that refers to an archive member:
/// what stands before the first `(`.
pub open spec fn archive_path_of(name: Seq<u8>) -> Seq<u8> {
    name.subrange(0, paren_index(name)->Some_0)
}

/// The name of the member in a name that refers to an archive member: what
/// stands from the first `(` on, without the parentheses around it.
pub open spec fn member_name_of(name: Seq<u8>) -> Seq<u8> {
    trim_end_parens(trim_start_parens(name.subrange(paren_index(name)->Some_0, name.len() as int)))
}

proof fn lemma_paren_index_from(name: Seq<u8>, from: int, at: int)
    requires
        0 <= from <= at <= name.len(),
        forall|j: int| from <= j < at ==> name[j] != OPEN_PAREN,
        at < name.len() ==> name[at] == OPEN_PAREN,
    ensures
        paren_index_from(name, from) == if at < name.len() {
            Some(at)
        } else {
            None
        },
    decreases at - from,
{
    if from < at {
        lemma_paren_index_from(name, from + 1, at);
    }
}

proof fn lemma_trim_start(text: Seq<u8>, at: int)
    requires
        0 <= at <= text.len(),
        forall|j: int| 0 <= j < at ==> text[j] == OPEN_PAREN,
        at < text.len() ==> text[at] != OPEN_PAREN,
    ensures
        trim_start_parens(text) == text.subrange(at, text.len() as int),
    decreases at,
{
    if at > 0 {
        let rest = text.drop_first();
        assert forall|j: int| 0 <= j < at - 1 implies rest[j] == OPEN_PAREN by {
            assert(rest[j] == text[j + 1]);
        }
        lemma_trim_start(rest, at - 1);
        assert(rest.subrange(at - 1, rest.len() as int) =~= text.subrange(at, text.len() as int));
    } else {
        assert(text.subrange(0, text.len() as int) =~= text);
    }
}

proof fn lemma_trim_end(text: Seq<u8>, at: int)
    requires
        0 <= at <= text.len(),
        forall|j: int| at <= j < text.len() ==> text[j] == CLOSE_PAREN,
        at > 0 ==> text[at - 1] != CLOSE_PAREN,
    ensures
        trim_end_parens(text) == text.subrange(0, at),
    decreases text.len() - at,
{
    if at < text.len() {
        let rest = text.drop_last();
        lemma_trim_end(rest, at);
        assert(rest.subrange(0, at) =~= text.subrange(0, at));
    } else {
        assert(text.subrange(0, text.len() as int) =~= text);
    }
}

/// The two parts of the name of an archive member.
#[derive(Debug, PartialEq, Eq)]
pub struct ArchiveMemberName {
    /// The path of the archive.
    pub path: Vec<u8>,
    /// The name of the member within the archive.
    pub name_in_archive: Vec<u8>,
}

/// Looks for the first `(` in the name.
pub fn find_paren(name: &[u8]) -> (found: Option<usize>)
    ensures
        match found {
            Some(i) => paren_index(name@) == Some(i as int) && i < name@.len(),
            None => paren_index(name@) is None,
        },
{
    let mut i: usize = 0;
    while i < name.len()
        invariant
            0 <= i <= name@.len(),
            forall|j: int| 0 <= j < i ==> name@[j] != OPEN_PAREN,
        decreases name@.len() - i,
    {
        if name[i] == OPEN_PAREN {
            proof {
                lemma_paren_index_from(name@, 0, i as int);
            }
            return Some(i);
        }
        i += 1;
    }
    proof {
        lemma_paren_index_from(name@, 0, name@.len() as int);
    }
    None
}

/// Takes the name of an archive member apart; `None` for the name of an
/// object file.
pub fn split_archive_name(name: &[u8]) -> (parts: Option<ArchiveMemberName>)
    ensures
        parts is Some <==> paren_index(name@) is Some,
        parts matches Some(p) ==> p.path@ == archive_path_of(name@) && p.name_in_archive@
            == member_name_of(name@),
{
    let index = match find_paren(name) {
        Some(index) => index,
        None => {
            return None;
        },
    };
    let len = name.len();
    let ghost rest = name@.subrange(index as int, len as int);
    let mut from: usize = index;
    while from < len && name[from] == OPEN_PAREN
        invariant
            index <= from <= len == name@.len(),
            forall|j: int| index <= j < from ==> name@[j] == OPEN_PAREN,
        decreases len - from,
    {
        from += 1;
    }
    let mut to: usize = len;
    while to > from && name[to - 1] == CLOSE_PAREN
        invariant
            from <= to <= len == name@.len(),
            forall|j: int| to <= j < len ==> name@[j] == CLOSE_PAREN,
        decreases to,
    {
        to -= 1;
    }
    proof {
        assert forall|j: int| 0 <= j < from - index implies rest[j] == OPEN_PAREN by {
            assert(rest[j] == name@[index + j]);
        }
        lemma_trim_start(rest, from - index);
        let trimmed = rest.subrange(from - index, rest.len() as int);
        assert(trimmed =~= name@.subrange(from as int, len as int));
        assert forall|j: int| to - from <= j < trimmed.len() implies trimmed[j] == CLOSE_PAREN by {
            assert(trimmed[j] == name@[from + j]);
        }
        if to > from {
            assert(trimmed[to - from - 1] == name@[to - 1]);
        }
        lemma_trim_end(trimmed, to - from);
        assert(trimmed.subrange(0, to - from) =~= name@.subrange(from as int, to as int));
    }
    Some(
        ArchiveMemberName {
            path: copy_bytes(slice_subrange(name, 0, index)),
            name_in_archive: copy_bytes(slice_subrange(name, from, to)),
        },
    )
}

} // verus!
