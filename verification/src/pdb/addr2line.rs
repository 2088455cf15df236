//! Address-to-frame resolution inside one PDB procedure.
//!
//! The debug records are modelled as plain values: a procedure with its line
//! records, and the symbols that follow it in the module's symbol stream.

use crate::address_order::sorted;
use std::collections::BTreeMap;
use std::ops::Range;
use vstd::pervasive::unreached;
use vstd::prelude::*;
use vstd::slice::slice_subrange;

verus! {

/// One entry of a call stack: a function and the source position inside it.
#[derive(Debug, PartialEq, Eq)]
pub struct Frame {
    pub function: Option<String>,
    pub location: Option<Location>,
}

/// A source position.
#[derive(Debug, PartialEq, Eq)]
pub struct Location {
    pub file: Option<String>,
    pub line: Option<u32>,
    pub column: Option<u32>,
}

/// Mathematical model of a [`Location`].
pub struct LocationView {
    pub file: Option<Seq<char>>,
    pub line: Option<u32>,
    pub column: Option<u32>,
}

/// Mathematical model of a [`Frame`].
pub struct FrameView {
    pub function: Option<Seq<char>>,
    pub location: Option<LocationView>,
}

/// The characters of an optional string.
pub open spec fn text_of(s: Option<String>) -> Option<Seq<char>> {
    match s {
        Some(s) => Some(s@),
        None => None,
    }
}

impl View for Location {
    type V = LocationView;

    open spec fn view(&self) -> LocationView {
        LocationView { file: text_of(self.file), line: self.line, column: self.column }
    }
}

/// The model of an optional location.
pub open spec fn location_view_of(l: Option<Location>) -> Option<LocationView> {
    match l {
        Some(l) => Some(l@),
        None => None,
    }
}

impl View for Frame {
    type V = FrameView;

    open spec fn view(&self) -> FrameView {
        FrameView { function: text_of(self.function), location: location_view_of(self.location) }
    }
}

/// The models of a sequence of frames, in order.
pub open spec fn frames_view(frames: Seq<Frame>) -> Seq<FrameView> {
    frames.map_values(|f: Frame| f@)
}

fn clone_text(s: &Option<String>) -> (r: Option<String>)
    ensures
        r == *s,
{
    match s {
        Some(s) => Some(s.clone()),
        None => None,
    }
}

impl Clone for Location {
    fn clone(&self) -> (r: Self)
        ensures
            r == *self,
    {
        Location { file: clone_text(&self.file), line: self.line, column: self.column }
    }
}

impl Clone for Frame {
    fn clone(&self) -> (r: Self)
        ensures
            r == *self,
    {
        let location = match &self.location {
            Some(l) => Some(l.clone()),
            None => None,
        };
        Frame { function: clone_text(&self.function), location }
    }
}

/// One record of a line program.
#[derive(Debug, PartialEq, Eq)]
pub struct LineInfo {
    /// Where the record starts, as an RVA; `None` where its section offset has none.
    pub start_rva: Option<u32>,
    /// How many bytes the record covers; procedure line programs leave this out.
    pub length: Option<u32>,
    /// Name of the source file, where it could be resolved.
    pub file: Option<String>,
    pub line_start: u32,
    pub column_start: Option<u32>,
}

/// A procedure symbol with its formatted name and its line records.
#[derive(Debug, PartialEq, Eq)]
pub struct ProcedureSymbol {
    pub name: String,
    /// RVA of the first byte; `None` where the symbol's section offset has none.
    pub start_rva: Option<u32>,
    pub len: u32,
    pub lines: Vec<LineInfo>,
    /// Where the last line record ends, where the line program broke off
    /// behind it; `None` where the line program is whole, and the last
    /// record ends with the procedure.
    pub lines_end_rva: Option<u32>,
}

/// An inline site with the formatted name of the inlined function.
#[derive(Debug, PartialEq, Eq)]
pub struct InlineSiteSymbol {
    pub name: String,
    /// Line records of the inlinee at this site; `None` where the module's
    /// inlinee table has no entry for it.
    pub lines: Option<Vec<LineInfo>>,
}

/// One symbol of a module's symbol stream.
#[derive(Debug, PartialEq, Eq)]
pub enum ModuleSymbol {
    Procedure(ProcedureSymbol),
    InlineSite(InlineSiteSymbol),
    /// A symbol of another kind, or one whose payload could not be decoded.
    Other,
    /// The stream could not be read at this position.
    Unreadable,
}

/// The symbol stream of one module.
#[derive(Debug, PartialEq, Eq)]
pub struct ModuleInfo {
    pub symbols: Vec<ModuleSymbol>,
    /// Whether the module's line program and inlinee table could be loaded.
    pub line_program_readable: bool,
}

/// A module as listed by the debug-information stream.
#[derive(Debug, PartialEq, Eq)]
pub enum ModuleEntry {
    /// The module has no symbol stream.
    Absent,
    /// The module's stream could not be read.
    Unreadable,
    Present(ModuleInfo),
}

/// The symbol stream broke off at index `symbol`.
#[derive(Clone, Copy, Debug, PartialEq, Eq, Structural)]
pub struct SymbolUnreadable {
    pub symbol: usize,
}

/// Why a lookup over all modules failed.
#[derive(Clone, Copy, Debug, PartialEq, Eq, Structural)]
pub enum Addr2LineError {
    ModuleUnreadable { module: usize },
    SymbolUnreadable { module: usize, symbol: usize },
    LineProgramUnreadable { module: usize },
}

/// The source position that a line record names.
pub open spec fn location_of(line: LineInfo) -> LocationView {
    LocationView {
        file: text_of(line.file),
        line: Some(line.line_start),
        column: line.column_start,
    }
}

/// A run of addresses, by index, that one line record covers.
#[derive(Clone, Copy, Debug, PartialEq, Eq, Structural)]
pub struct LineMatch {
    /// Index of the first covered address.
    pub first: usize,
    /// One past the index of the last covered address.
    pub end: usize,
    /// Index of the line record.
    pub line: usize,
}

/// Number of leading elements of the sorted sequence `s` that are below `bound`.
pub open spec fn count_below(s: Seq<u32>, bound: u32) -> int
    decreases s.len(),
{
    if s.len() == 0 {
        0
    } else if s.first() < bound {
        1 + count_below(s.drop_first(), bound)
    } else {
        0
    }
}

/// For a sorted sequence, `count_below` is the unique cut point between the
/// elements below `bound` and the rest.
pub proof fn lemma_count_below_is_cut(s: Seq<u32>, bound: u32)
    requires
        sorted(s),
    ensures
        0 <= count_below(s, bound) <= s.len(),
        forall|k: int| 0 <= k < count_below(s, bound) ==> s[k] < bound,
        forall|k: int| count_below(s, bound) <= k < s.len() ==> s[k] >= bound,
    decreases s.len(),
{
    if s.len() > 0 && s.first() < bound {
        let t = s.drop_first();
        assert forall|i: int, j: int| 0 <= i <= j < t.len() implies t[i] <= t[j] by {
            assert(t[i] == s[i + 1] && t[j] == s[j + 1]);
        }
        lemma_count_below_is_cut(t, bound);
        assert forall|k: int| 0 <= k < count_below(s, bound) implies s[k] < bound by {
            if k > 0 {
                assert(s[k] == t[k - 1]);
            }
        }
        assert forall|k: int| count_below(s, bound) <= k < s.len() implies s[k] >= bound by {
            assert(s[k] == t[k - 1]);
        }
    } else if s.len() > 0 {
        assert forall|k: int| 0 <= k < s.len() implies s[k] >= bound by {
            assert(s[0] <= s[k]);
        }
    }
}

/// Any index that separates the elements below `bound` from the rest is `count_below`.
pub proof fn lemma_cut_is_count_below(s: Seq<u32>, bound: u32, cut: int)
    requires
        sorted(s),
        0 <= cut <= s.len(),
        forall|k: int| 0 <= k < cut ==> s[k] < bound,
        forall|k: int| cut <= k < s.len() ==> s[k] >= bound,
    ensures
        cut == count_below(s, bound),
{
    lemma_count_below_is_cut(s, bound);
    let c = count_below(s, bound);
    if c < cut {
        assert(s[c] < bound);
        assert(s[c] >= bound);
    } else if cut < c {
        assert(s[cut] < bound);
        assert(s[cut] >= bound);
    }
}

/// Index of the first element of `addresses` that is not below `bound`,
/// found by halving. In a slice that is not sorted it is some index.
fn lower_bound(addresses: &[u32], bound: u32) -> (cut: usize)
    ensures
        cut <= addresses@.len(),
        sorted(addresses@) ==> cut == count_below(addresses@, bound),
{
    let mut lo: usize = 0;
    let mut hi: usize = addresses.len();
    while lo < hi
        invariant
            0 <= lo <= hi <= addresses@.len(),
            sorted(addresses@) ==> forall|k: int| 0 <= k < lo ==> addresses@[k] < bound,
            sorted(addresses@) ==> forall|k: int|
                hi <= k < addresses@.len() ==> addresses@[k] >= bound,
        decreases hi - lo,
    {
        let mid: usize = lo + (hi - lo) / 2;
        if addresses[mid] < bound {
            proof {
                if sorted(addresses@) {
                    assert forall|k: int| 0 <= k < mid + 1 implies addresses@[k] < bound by {
                        assert(addresses@[k] <= addresses@[mid as int]);
                    }
                }
            }
            lo = mid + 1;
        } else {
            proof {
                if sorted(addresses@) {
                    assert forall|k: int| mid <= k < addresses@.len() implies addresses@[k]
                        >= bound by {
                        assert(addresses@[mid as int] <= addresses@[k]);
                    }
                }
            }
            hi = mid;
        }
    }
    proof {
        if sorted(addresses@) {
            lemma_cut_is_count_below(addresses@, bound, lo as int);
        }
    }
    lo
}

/// First index of the run of `addresses` that lies in `[start, end)`.
pub open spec fn covered_from(addresses: Seq<u32>, start: u32) -> int {
    count_below(addresses, start)
}

/// One past the last index of the run of `addresses` that lies in `[start, end)`.
pub open spec fn covered_to(addresses: Seq<u32>, start: u32, end: u32) -> int {
    if end <= start {
        count_below(addresses, start)
    } else {
        count_below(addresses, end)
    }
}

/// An index range `[first, end)` of the slice `addresses`; for a sorted
/// slice, the one that holds exactly the addresses lying in
/// `[start, end_rva)`.
pub fn covered_index_range(addresses: &[u32], start: u32, end_rva: u32) -> (r: (usize, usize))
    ensures
        r.0 <= r.1 <= addresses@.len(),
        sorted(addresses@) ==> r.0 == covered_from(addresses@, start),
        sorted(addresses@) ==> r.1 == covered_to(addresses@, start, end_rva),
        sorted(addresses@) ==> forall|k: int|
            0 <= k < addresses@.len() ==> ((r.0 <= k < r.1) <==> (start <= #[trigger] addresses@[k]
                < end_rva)),
{
    let first = lower_bound(addresses, start);
    proof {
        if sorted(addresses@) {
            lemma_count_below_is_cut(addresses@, start);
            lemma_count_below_is_cut(addresses@, end_rva);
        }
    }
    if end_rva <= start {
        (first, first)
    } else {
        let end = lower_bound(addresses, end_rva);
        if end < first {
            // Only in a slice that is not sorted.
            proof {
                if sorted(addresses@) {
                    assert(addresses@[end as int] >= end_rva);
                    assert(addresses@[end as int] < start);
                }
            }
            (first, first)
        } else {
            (first, end)
        }
    }
}

/// A contiguous sub-slice of `addresses`; for a sorted slice, the one that
/// holds exactly the addresses lying in the half-open `range`.
pub fn get_addresses_covered_by_range(addresses: &[u32], range: Range<u32>) -> (covered: &[u32])
    ensures
        exists|i: int, j: int|
            0 <= i <= j <= addresses@.len() && covered@ == #[trigger] addresses@.subrange(i, j),
        sorted(addresses@) ==> covered@ == addresses@.subrange(
            covered_from(addresses@, range.start),
            covered_to(addresses@, range.start, range.end),
        ),
        sorted(addresses@) ==> 0 <= covered_from(addresses@, range.start) <= covered_to(
            addresses@,
            range.start,
            range.end,
        ) <= addresses@.len(),
        sorted(addresses@) ==> forall|k: int|
            0 <= k < addresses@.len() ==> ((covered_from(addresses@, range.start) <= k
                < covered_to(addresses@, range.start, range.end)) <==> (range.start
                <= #[trigger] addresses@[k] < range.end)),
{
    let start_index = lower_bound(addresses, range.start);
    let half_range = slice_subrange(addresses, start_index, addresses.len());
    let len = lower_bound(half_range, range.end);
    proof {
        let to = start_index + len;
        assert(half_range@.subrange(0, len as int) =~= addresses@.subrange(
            start_index as int,
            to,
        ));
        if sorted(addresses@) {
            lemma_count_below_is_cut(addresses@, range.start);
            lemma_count_below_is_cut(addresses@, range.end);
            assert(sorted(half_range@)) by {
                assert forall|i: int, j: int| 0 <= i <= j < half_range@.len() implies half_range@[i]
                    <= half_range@[j] by {
                    assert(half_range@[i] == addresses@[start_index + i]);
                    assert(half_range@[j] == addresses@[start_index + j]);
                }
            }
            lemma_count_below_is_cut(half_range@, range.end);
            assert forall|k: int| to <= k < addresses@.len() implies addresses@[k]
                >= range.end by {
                assert(half_range@[k - start_index] == addresses@[k]);
            }
            if range.end <= range.start {
                if len > 0 {
                    assert(half_range@[0] == addresses@[start_index as int]);
                    assert(half_range@[0] < range.end);
                }
            } else {
                assert forall|k: int| 0 <= k < to implies addresses@[k] < range.end by {
                    if k < start_index {
                        assert(addresses@[k] < range.start);
                    } else {
                        assert(half_range@[k - start_index] == addresses@[k]);
                    }
                }
                lemma_cut_is_count_below(addresses@, range.end, to);
            }
        }
    }
    slice_subrange(half_range, 0, len)
}

/// End of line `i` in a procedure's line program: such records carry no
/// length, so a line ends where the next one starts, the last one at the
/// procedure's end.
pub open spec fn line_end_no_size(lines: Seq<LineInfo>, i: int, outer_end_rva: u32) -> u32 {
    if i + 1 < lines.len() {
        lines[i + 1].start_rva->Some_0
    } else {
        outer_end_rva
    }
}

/// Whether line `i` of a procedure's line program covers the address `a`.
pub open spec fn covers_no_size(lines: Seq<LineInfo>, i: int, outer_end_rva: u32, a: u32) -> bool {
    lines[i].start_rva->Some_0 <= a < line_end_no_size(lines, i, outer_end_rva)
}

/// Whether line `i` of an inlinee's line program, whose records carry their
/// own length, covers the address `a`. A record without a length covers nothing.
pub open spec fn covers_with_size(lines: Seq<LineInfo>, i: int, a: u32) -> bool {
    lines[i].length is Some && lines[i].start_rva->Some_0 <= a < lines[i].start_rva->Some_0
        + lines[i].length->Some_0
}

/// Every record has an RVA.
pub open spec fn all_lines_have_rva(lines: Seq<LineInfo>) -> bool {
    forall|i: int| 0 <= i < lines.len() ==> (#[trigger] lines[i]).start_rva is Some
}

/// Every record that has a length also has an RVA, and ends within the 32-bit
/// address space.
pub open spec fn sized_lines_fit(lines: Seq<LineInfo>) -> bool {
    forall|i: int|
        0 <= i < lines.len() && (#[trigger] lines[i]).length is Some ==> lines[i].start_rva is Some
            && lines[i].start_rva->Some_0 + lines[i].length->Some_0 <= u32::MAX
}

/// `matches` lists, in ascending line order, exactly the lines that cover at
/// least one of `addresses`, each with the run of addresses that it covers.
pub open spec fn lists_covering_lines(
    matches: Seq<LineMatch>,
    n_lines: int,
    addresses: Seq<u32>,
    covers: spec_fn(int, u32) -> bool,
) -> bool {
    &&& forall|m: int|
        0 <= m < matches.len() ==> 0 <= (#[trigger] matches[m]).line < n_lines && matches[m].first
            < matches[m].end <= addresses.len()
    &&& forall|m: int, k: int|
        0 <= m < matches.len() && 0 <= k < addresses.len() ==> ((matches[m].first <= k
            < matches[m].end) <==> #[trigger] covers(matches[m].line as int, addresses[k]))
    &&& forall|m1: int, m2: int|
        0 <= m1 < m2 < matches.len() ==> (#[trigger] matches[m1]).line < (#[trigger] matches[m2]).line
    &&& forall|i: int, k: int|
        0 <= i < n_lines && 0 <= k < addresses.len() && #[trigger] covers(i, addresses[k])
            ==> exists|m: int| 0 <= m < matches.len() && (#[trigger] matches[m]).line == i
}

impl LineInfo {
    /// The source position that this record names.
    pub fn line_info_to_location(&self) -> (location: Location)
        ensures
            location@ == location_of(*self),
    {
        Location {
            file: clone_text(&self.file),
            line: Some(self.line_start),
            column: self.column_start,
        }
    }
}

/// The lines of a procedure's line program that cover at least one of the
/// sorted `addresses`, with the addresses each one covers.
pub fn find_line_infos_containing_addresses_no_size(
    lines: &[LineInfo],
    addresses: &[u32],
    outer_end_rva: u32,
) -> (matches: Vec<LineMatch>)
    requires
        sorted(addresses@),
        all_lines_have_rva(lines@),
    ensures
        lists_covering_lines(
            matches@,
            lines@.len() as int,
            addresses@,
            |i: int, a: u32| covers_no_size(lines@, i, outer_end_rva, a),
        ),
{
    let ghost covers = |i: int, a: u32| covers_no_size(lines@, i, outer_end_rva, a);
    let mut matches: Vec<LineMatch> = Vec::new();
    let mut i: usize = 0;
    while i < lines.len()
        invariant
            0 <= i <= lines@.len(),
            sorted(addresses@),
            all_lines_have_rva(lines@),
            covers == (|i: int, a: u32| covers_no_size(lines@, i, outer_end_rva, a)),
            lists_covering_lines(matches@, i as int, addresses@, covers),
        decreases lines@.len() - i,
    {
        let start_rva = lines[i].start_rva.unwrap();
        let end_rva = if i + 1 < lines.len() {
            lines[i + 1].start_rva.unwrap()
        } else {
            outer_end_rva
        };
        let (first, end) = covered_index_range(addresses, start_rva, end_rva);
        let ghost before = matches@;
        if first < end {
            matches.push(LineMatch { first, end, line: i });
        }
        proof {
            assert(end_rva == line_end_no_size(lines@, i as int, outer_end_rva));
            assert forall|k: int| 0 <= k < addresses@.len() implies ((first <= k < end)
                <==> #[trigger] covers(i as int, addresses@[k])) by {}
            lemma_extend_match_list(before, matches@, i as int, first, end, addresses@, covers);
        }
        i += 1;
    }
    matches
}

/// The lines of an inlinee's line program that cover at least one of the
/// sorted `addresses`, with the addresses each one covers.
pub fn find_line_infos_containing_addresses_with_size(
    lines: &[LineInfo],
    addresses: &[u32],
) -> (matches: Vec<LineMatch>)
    requires
        sorted(addresses@),
        sized_lines_fit(lines@),
    ensures
        lists_covering_lines(
            matches@,
            lines@.len() as int,
            addresses@,
            |i: int, a: u32| covers_with_size(lines@, i, a),
        ),
{
    let ghost covers = |i: int, a: u32| covers_with_size(lines@, i, a);
    let mut matches: Vec<LineMatch> = Vec::new();
    let mut i: usize = 0;
    while i < lines.len()
        invariant
            0 <= i <= lines@.len(),
            sorted(addresses@),
            sized_lines_fit(lines@),
            covers == (|i: int, a: u32| covers_with_size(lines@, i, a)),
            lists_covering_lines(matches@, i as int, addresses@, covers),
        decreases lines@.len() - i,
    {
        let ghost before = matches@;
        let mut first: usize = 0;
        let mut end: usize = 0;
        match lines[i].length {
            Some(length) => {
                let start_rva = lines[i].start_rva.unwrap();
                let end_rva = start_rva + length;
                let r = covered_index_range(addresses, start_rva, end_rva);
                first = r.0;
                end = r.1;
                if first < end {
                    matches.push(LineMatch { first, end, line: i });
                }
            },
            None => {},
        }
        proof {
            assert forall|k: int| 0 <= k < addresses@.len() implies ((first <= k < end)
                <==> #[trigger] covers(i as int, addresses@[k])) by {}
            lemma_extend_match_list(before, matches@, i as int, first, end, addresses@, covers);
        }
        i += 1;
    }
    matches
}

/// A match list for the first `i` lines, extended by line `i` where that line
/// covers an address, is a match list for the first `i + 1` lines.
proof fn lemma_extend_match_list(
    before: Seq<LineMatch>,
    after: Seq<LineMatch>,
    i: int,
    first: usize,
    end: usize,
    addresses: Seq<u32>,
    covers: spec_fn(int, u32) -> bool,
)
    requires
        0 <= i,
        lists_covering_lines(before, i, addresses, covers),
        forall|k: int|
            0 <= k < addresses.len() ==> ((first <= k < end) <==> #[trigger] covers(
                i,
                addresses[k],
            )),
        first < end ==> end <= addresses.len() && after == before.push(
            LineMatch { first, end, line: i as usize },
        ),
        first >= end ==> after == before,
        i <= usize::MAX,
    ensures
        lists_covering_lines(after, i + 1, addresses, covers),
{
    assert forall|x: int, k: int|
        0 <= x < i + 1 && 0 <= k < addresses.len() && #[trigger] covers(
            x,
            addresses[k],
        ) implies exists|m: int| 0 <= m < after.len() && (#[trigger] after[m]).line == x by {
        if x < i {
            let m = choose|m: int| 0 <= m < before.len() && (#[trigger] before[m]).line == x;
            assert(after[m].line == x);
        } else {
            assert(first <= k < end);
            assert(after[before.len() as int].line == i);
        }
    }
    assert forall|m: int, k: int| 0 <= m < after.len() && 0 <= k < addresses.len() implies ((
    after[m].first <= k < after[m].end) <==> #[trigger] covers(
        after[m].line as int,
        addresses[k],
    )) by {
        if m < before.len() {
            assert(after[m] == before[m]);
        }
    }
    assert forall|m1: int, m2: int| 0 <= m1 < m2 < after.len() implies (#[trigger] after[m1]).line
        < (#[trigger] after[m2]).line by {
        if m2 < before.len() {
            assert(after[m1] == before[m1] && after[m2] == before[m2]);
        } else {
            assert(after[m1] == before[m1]);
        }
    }
    assert forall|m: int| 0 <= m < after.len() implies 0 <= (#[trigger] after[m]).line < i + 1
        && after[m].first < after[m].end <= addresses.len() by {
        if m < before.len() {
            assert(after[m] == before[m]);
        }
    }
}

/// The source position of the procedure's own frame at address `a`: that of
/// the last of the first `upto` lines that covers `a`.
pub open spec fn procedure_location(
    lines: Seq<LineInfo>,
    outer_end_rva: u32,
    a: u32,
    upto: int,
) -> Option<LocationView>
    decreases upto,
{
    if upto <= 0 {
        None
    } else if covers_no_size(lines, upto - 1, outer_end_rva, a) {
        Some(location_of(lines[upto - 1]))
    } else {
        procedure_location(lines, outer_end_rva, a, upto - 1)
    }
}

/// The frame that line `i` of an inline site contributes.
pub open spec fn site_frame(name: Seq<char>, lines: Seq<LineInfo>, i: int) -> FrameView {
    FrameView { function: Some(name), location: Some(location_of(lines[i])) }
}

/// The frames that the first `upto` lines of one inline site contribute at
/// address `a`: one for each line that covers `a`, in line order.
pub open spec fn site_frames(name: Seq<char>, lines: Seq<LineInfo>, a: u32, upto: int) -> Seq<
    FrameView,
>
    decreases upto,
{
    if upto <= 0 {
        Seq::empty()
    } else if covers_with_size(lines, upto - 1, a) {
        site_frames(name, lines, a, upto - 1).push(site_frame(name, lines, upto - 1))
    } else {
        site_frames(name, lines, a, upto - 1)
    }
}

/// The frames that one symbol contributes at address `a`. Only an inline site
/// whose inlinee is known contributes any.
pub open spec fn symbol_frames(symbol: ModuleSymbol, a: u32) -> Seq<FrameView> {
    match symbol {
        ModuleSymbol::InlineSite(site) => match site.lines {
            Some(lines) => site_frames(site.name@, lines@, a, lines@.len() as int),
            None => Seq::empty(),
        },
        _ => Seq::empty(),
    }
}

/// The inline frames at address `a` from the symbols `from..upto`, in stream order.
pub open spec fn inline_frames(symbols: Seq<ModuleSymbol>, from: int, upto: int, a: u32) -> Seq<
    FrameView,
>
    decreases upto - from,
{
    if upto <= from {
        Seq::empty()
    } else {
        inline_frames(symbols, from, upto - 1, a) + symbol_frames(symbols[upto - 1], a)
    }
}

/// Where a walk over the symbols that starts at `from` stops: at the next
/// procedure, at an unreadable position, or at the end of the stream.
pub open spec fn scan_end(symbols: Seq<ModuleSymbol>, from: int) -> int
    decreases symbols.len() - from,
{
    if from >= symbols.len() {
        symbols.len() as int
    } else if symbols[from] is Procedure || symbols[from] is Unreadable {
        from
    } else {
        scan_end(symbols, from + 1)
    }
}

/// The position at which reading the symbols of the procedure at
/// `symbol_index` fails, if it does: the procedure's own position, or the
/// position where the walk over its inline sites stops.
pub open spec fn first_unreadable(symbols: Seq<ModuleSymbol>, symbol_index: int) -> Option<int> {
    if symbol_index < symbols.len() && symbols[symbol_index] is Unreadable {
        Some(symbol_index)
    } else {
        let stop = scan_end(symbols, symbol_index + 1);
        if stop < symbols.len() && symbols[stop] is Unreadable {
            Some(stop)
        } else {
            None
        }
    }
}

/// The inline sites in `from..upto` have line records that can be placed.
pub open spec fn inline_sites_fit(symbols: Seq<ModuleSymbol>, from: int, upto: int) -> bool {
    forall|s: int|
        from <= s < upto && s < symbols.len() ==> match #[trigger] symbols[s] {
            ModuleSymbol::InlineSite(site) => match site.lines {
                Some(lines) => sized_lines_fit(lines@),
                None => true,
            },
            _ => true,
        }
}

/// The call stack at address `a` inside the procedure `proc`, outermost frame
/// first: the procedure itself, then one frame for every line of every inline
/// site after it that covers `a`.
pub open spec fn frames_for_address(
    proc: ProcedureSymbol,
    outer_end_rva: u32,
    symbols: Seq<ModuleSymbol>,
    symbol_index: int,
    a: u32,
) -> Seq<FrameView> {
    seq![
        FrameView {
            function: Some(proc.name@),
            location: procedure_location(proc.lines@, outer_end_rva, a, proc.lines@.len() as int),
        },
    ] + inline_frames(symbols, symbol_index + 1, scan_end(symbols, symbol_index + 1), a)
}

/// Lines that cover no address leave the procedure's location as it was.
proof fn lemma_location_unchanged(
    lines: Seq<LineInfo>,
    outer_end_rva: u32,
    a: u32,
    lo: int,
    hi: int,
)
    requires
        0 <= lo <= hi,
        forall|i: int| lo <= i < hi ==> !covers_no_size(lines, i, outer_end_rva, a),
    ensures
        procedure_location(lines, outer_end_rva, a, hi) == procedure_location(
            lines,
            outer_end_rva,
            a,
            lo,
        ),
    decreases hi - lo,
{
    if lo < hi {
        lemma_location_unchanged(lines, outer_end_rva, a, lo, hi - 1);
    }
}

/// Lines that cover no address contribute no frame.
proof fn lemma_site_frames_unchanged(name: Seq<char>, lines: Seq<LineInfo>, a: u32, lo: int, hi: int)
    requires
        0 <= lo <= hi,
        forall|i: int| lo <= i < hi ==> !covers_with_size(lines, i, a),
    ensures
        site_frames(name, lines, a, hi) == site_frames(name, lines, a, lo),
    decreases hi - lo,
{
    if lo < hi {
        lemma_site_frames_unchanged(name, lines, a, lo, hi - 1);
    }
}

/// In a match list, the lines strictly between two neighbouring matches (and
/// before the first, and after the last) cover no address.
proof fn lemma_gap_covers_nothing(
    matches: Seq<LineMatch>,
    n_lines: int,
    addresses: Seq<u32>,
    covers: spec_fn(int, u32) -> bool,
    m: int,
    i: int,
    k: int,
)
    requires
        lists_covering_lines(matches, n_lines, addresses, covers),
        0 <= m <= matches.len(),
        0 <= k < addresses.len(),
        0 <= i < n_lines,
        m > 0 ==> matches[m - 1].line < i,
        m < matches.len() ==> i < matches[m].line,
    ensures
        !covers(i, addresses[k]),
{
    if covers(i, addresses[k]) {
        let w = choose|w: int| 0 <= w < matches.len() && (#[trigger] matches[w]).line == i;
        if w < m {
            if w < m - 1 {
                assert(matches[w].line < matches[m - 1].line);
            }
        } else {
            if w > m {
                assert(matches[m].line < matches[w].line);
            }
        }
    }
}

impl InlineSiteSymbol {
    /// The frames that this inline site contributes, each with the run of
    /// addresses that it belongs to; `None` where the site covers none of the
    /// sorted `addresses` or its inlinee is not known.
    pub fn frames_for_addresses_for_inline_symbol(&self, addresses: &[u32]) -> (r: Option<
        Vec<(LineMatch, Frame)>,
    >)
        requires
            sorted(addresses@),
            self.lines matches Some(lines) ==> sized_lines_fit(lines@),
        ensures
            self.lines is None ==> r is None,
            self.lines matches Some(lines) ==> (r is None <==> forall|i: int, k: int|
                0 <= i < lines@.len() && 0 <= k < addresses@.len() ==> !covers_with_size(
                    lines@,
                    i,
                    addresses@[k],
                )),
            self.lines matches Some(lines) ==> (r matches Some(frames) ==> {
                &&& frames@.len() > 0
                &&& lists_covering_lines(
                    frames@.map_values(|p: (LineMatch, Frame)| p.0),
                    lines@.len() as int,
                    addresses@,
                    |i: int, a: u32| covers_with_size(lines@, i, a),
                )
                &&& forall|j: int|
                    0 <= j < frames@.len() ==> (#[trigger] frames@[j]).1@ == site_frame(
                        self.name@,
                        lines@,
                        frames@[j].0.line as int,
                    )
            }),
    {
        let lines = match &self.lines {
            Some(lines) => lines,
            None => {
                return None;
            },
        };
        let line_infos = find_line_infos_containing_addresses_with_size(
            lines.as_slice(),
            addresses,
        );
        let ghost covers = |i: int, a: u32| covers_with_size(lines@, i, a);
        if line_infos.len() == 0 {
            assert forall|i: int, k: int|
                0 <= i < lines@.len() && 0 <= k < addresses@.len() implies !covers_with_size(
                lines@,
                i,
                addresses@[k],
            ) by {
                if covers(i, addresses@[k]) {
                    let w = choose|w: int|
                        0 <= w < line_infos@.len() && (#[trigger] line_infos@[w]).line == i;
                }
            }
            return None;
        }
        let mut frames: Vec<(LineMatch, Frame)> = Vec::new();
        let mut j: usize = 0;
        while j < line_infos.len()
            invariant
                0 <= j <= line_infos@.len(),
                frames@.len() == j,
                self.lines == Some(*lines),
                lists_covering_lines(line_infos@, lines@.len() as int, addresses@, covers),
                forall|x: int| 0 <= x < j ==> (#[trigger] frames@[x]).0 == line_infos@[x],
                forall|x: int|
                    0 <= x < j ==> (#[trigger] frames@[x]).1@ == site_frame(
                        self.name@,
                        lines@,
                        line_infos@[x].line as int,
                    ),
            decreases line_infos@.len() - j,
        {
            let line_match = line_infos[j];
            let location = lines[line_match.line].line_info_to_location();
            frames.push(
                (line_match, Frame { function: Some(self.name.clone()), location: Some(location) }),
            );
            j += 1;
        }
        proof {
            assert(frames@.map_values(|p: (LineMatch, Frame)| p.0) =~= line_infos@);
            let m0 = line_infos@[0];
            assert(covers(m0.line as int, addresses@[m0.first as int]));
        }
        Some(frames)
    }
}

/// The procedure's own frame at address `a`.
pub open spec fn procedure_frame(proc: ProcedureSymbol, outer_end_rva: u32, a: u32) -> FrameView {
    FrameView {
        function: Some(proc.name@),
        location: procedure_location(proc.lines@, outer_end_rva, a, proc.lines@.len() as int),
    }
}

/// Mapping the frames to their models commutes with appending one.
proof fn lemma_frames_view_push(frames: Seq<Frame>, frame: Frame)
    ensures
        frames_view(frames.push(frame)) == frames_view(frames).push(frame@),
{
    assert(frames_view(frames.push(frame)) =~= frames_view(frames).push(frame@));
}

/// Files each frame list under its address. Where an address occurs more than
/// once, one of its lists is kept.
fn index_by_address(addresses: &[u32], frames: Vec<Vec<Frame>>) -> (map: BTreeMap<
    u32,
    Vec<Frame>,
>)
    requires
        frames@.len() == addresses@.len(),
    ensures
        forall|a: u32| map@.contains_key(a) <==> addresses@.contains(a),
        forall|a: u32| #[trigger]
            map@.contains_key(a) ==> exists|k: int|
                0 <= k < addresses@.len() && addresses@[k] == a && map@[a] == frames@[k],
{
    broadcast use vstd::laws_cmp::group_laws_cmp;

    let ghost all = frames@;
    let mut frames = frames;
    let mut map: BTreeMap<u32, Vec<Frame>> = BTreeMap::new();
    while frames.len() > 0
        invariant
            all.len() == addresses@.len(),
            frames@.len() <= all.len(),
            forall|j: int| 0 <= j < frames@.len() ==> frames@[j] == all[j],
            forall|a: u32| #[trigger]
                map@.contains_key(a) <==> exists|k: int|
                    frames@.len() <= k < addresses@.len() && addresses@[k] == a,
            forall|a: u32| #[trigger]
                map@.contains_key(a) ==> exists|k: int|
                    0 <= k < addresses@.len() && addresses@[k] == a && map@[a] == all[k],
        decreases frames@.len(),
    {
        let ghost before = map@;
        let ghost n_before = frames@.len();
        let list = frames.pop().unwrap();
        let k = frames.len();
        let address = addresses[k];
        let ghost at: int = k + 0;
        map.insert(address, list);
        proof {
            assert(map@ == before.insert(address, list));
            assert forall|a: u32| #[trigger] map@.contains_key(a) implies exists|k: int|
                frames@.len() <= k < addresses@.len() && addresses@[k] == a by {
                if a == address {
                    assert(addresses@[at] == a);
                } else {
                    assert(before.contains_key(a));
                    let w = choose|w: int| n_before <= w < addresses@.len() && addresses@[w] == a;
                    assert(frames@.len() <= w < addresses@.len() && addresses@[w] == a);
                }
            }
            assert forall|a: u32|
                (exists|k: int|
                    frames@.len() <= k < addresses@.len() && addresses@[k]
                        == a) implies #[trigger] map@.contains_key(a) by {
                let w = choose|w: int| frames@.len() <= w < addresses@.len() && addresses@[w] == a;
                if a != address {
                    assert(n_before <= w < addresses@.len() && addresses@[w] == a);
                    assert(before.contains_key(a));
                }
            }
            assert forall|a: u32| #[trigger] map@.contains_key(a) implies exists|k: int|
                0 <= k < addresses@.len() && addresses@[k] == a && map@[a] == all[k] by {
                if a == address {
                    assert(addresses@[at] == a && map@[a] == all[at]);
                } else {
                    assert(before.contains_key(a));
                    let w = choose|w: int|
                        0 <= w < addresses@.len() && addresses@[w] == a && before[a] == all[w];
                    assert(addresses@[w] == a && map@[a] == all[w]);
                }
            }
        }
    }
    proof {
        assert forall|a: u32| map@.contains_key(a) <==> addresses@.contains(a) by {
            if map@.contains_key(a) {
                let w = choose|w: int| frames@.len() <= w < addresses@.len() && addresses@[w] == a;
                assert(addresses@[w] == a);
            }
            if addresses@.contains(a) {
                let w = choose|w: int| 0 <= w < addresses@.len() && addresses@[w] == a;
                assert(frames@.len() <= w < addresses@.len() && addresses@[w] == a);
            }
        }
    }
    map
}

/// Takes the list filed under `address` out of `map`.
fn take_frames(map: BTreeMap<u32, Vec<Frame>>, address: u32) -> (frames: Vec<Frame>)
    requires
        map@.contains_key(address),
    ensures
        frames == map@[address],
{
    broadcast use vstd::laws_cmp::group_laws_cmp;
    broadcast use vstd::std_specs::btree::group_btree_axioms;

    let mut map = map;
    match map.remove(&address) {
        Some(frames) => frames,
        None => unreached(),
    }
}

/// Debug information of a PDB, module by module, ready for address lookups.
pub struct Addr2LineContext {
    modules: Vec<ModuleEntry>,
}

impl Addr2LineContext {
    /// The modules that lookups go through, in the order of the
    /// debug-information stream.
    pub closed spec fn modules(&self) -> Seq<ModuleEntry> {
        self.modules@
    }

    pub fn new(modules: Vec<ModuleEntry>) -> (r: Result<Self, Addr2LineError>)
        ensures
            r matches Ok(context) && context.modules() == modules@,
    {
        Ok(Addr2LineContext { modules })
    }

    /// The call stack at each of the sorted `addresses`, all of which lie in
    /// the procedure `proc`, the symbol at `symbol_index` of `module_info`.
    /// The last line record of the procedure ends at the end of
    /// `procedure_rva_range`.
    /// Each stack starts with the procedure's frame and goes on with the
    /// frames of the inline sites that cover the address, outermost first.
    pub fn find_frames_for_addresses_from_procedure(
        &self,
        addresses: &[u32],
        module_info: &ModuleInfo,
        symbol_index: usize,
        proc: &ProcedureSymbol,
        procedure_rva_range: Range<u32>,
    ) -> (r: Result<BTreeMap<u32, Vec<Frame>>, SymbolUnreadable>)
        requires
            sorted(addresses@),
            all_lines_have_rva(proc.lines@),
            inline_sites_fit(
                module_info.symbols@,
                symbol_index + 1,
                scan_end(module_info.symbols@, symbol_index + 1),
            ),
        ensures
            match r {
                Ok(map) => {
                    &&& first_unreadable(module_info.symbols@, symbol_index as int) is None
                    &&& forall|a: u32| map@.contains_key(a) <==> addresses@.contains(a)
                    &&& forall|a: u32| #[trigger]
                        map@.contains_key(a) ==> frames_view(map@[a]@) == frames_for_address(
                            *proc,
                            procedure_rva_range.end,
                            module_info.symbols@,
                            symbol_index as int,
                            a,
                        )
                },
                Err(e) => first_unreadable(module_info.symbols@, symbol_index as int) == Some(
                    e.symbol as int,
                ),
            },
    {
        let n = addresses.len();
        let outer_end_rva = procedure_rva_range.end;
        let ghost lines = proc.lines@;
        let ghost symbols = module_info.symbols@;
        let ghost from = symbol_index + 1;

        let mut frames_per_address: Vec<Vec<Frame>> = Vec::new();
        let mut k: usize = 0;
        while k < n
            invariant
                0 <= k <= n,
                frames_per_address@.len() == k,
                forall|x: int|
                    0 <= x < k ==> (#[trigger] frames_per_address@[x])@.len() == 1
                        && frames_per_address@[x]@[0]@ == (FrameView {
                        function: Some(proc.name@),
                        location: None,
                    }),
            decreases n - k,
        {
            let frame = Frame { function: Some(proc.name.clone()), location: None };
            let mut frames: Vec<Frame> = Vec::new();
            frames.push(frame);
            frames_per_address.push(frames);
            k += 1;
        }

        let line_infos = find_line_infos_containing_addresses_no_size(
            proc.lines.as_slice(),
            addresses,
            outer_end_rva,
        );
        let ghost covers = |i: int, a: u32| covers_no_size(lines, i, outer_end_rva, a);
        let mut m: usize = 0;
        let ghost mut done: int = 0;
        while m < line_infos.len()
            invariant
                0 <= m <= line_infos@.len(),
                n == addresses@.len(),
                lines == proc.lines@,
                covers == (|i: int, a: u32| covers_no_size(lines, i, outer_end_rva, a)),
                lists_covering_lines(line_infos@, lines.len() as int, addresses@, covers),
                frames_per_address@.len() == n,
                0 <= done <= lines.len(),
                m > 0 ==> done == line_infos@[m - 1].line + 1,
                m == 0 ==> done == 0,
                forall|x: int|
                    0 <= x < n ==> (#[trigger] frames_per_address@[x])@.len() == 1
                        && frames_per_address@[x]@[0]@ == (FrameView {
                        function: Some(proc.name@),
                        location: procedure_location(lines, outer_end_rva, addresses@[x], done),
                    }),
            decreases line_infos@.len() - m,
        {
            let line_match = line_infos[m];
            let location = proc.lines[line_match.line].line_info_to_location();
            let ghost line = line_match.line as int;
            proof {
                if m > 0 {
                    assert(line_infos@[m - 1].line < line_infos@[m as int].line);
                }
                assert forall|x: int| 0 <= x < n implies procedure_location(
                    lines,
                    outer_end_rva,
                    addresses@[x],
                    line,
                ) == procedure_location(lines, outer_end_rva, addresses@[x], done) by {
                    assert forall|i: int| done <= i < line implies !covers_no_size(
                        lines,
                        i,
                        outer_end_rva,
                        addresses@[x],
                    ) by {
                        lemma_gap_covers_nothing(
                            line_infos@,
                            lines.len() as int,
                            addresses@,
                            covers,
                            m as int,
                            i,
                            x,
                        );
                    }
                    lemma_location_unchanged(lines, outer_end_rva, addresses@[x], done, line);
                }
            }
            let mut k: usize = line_match.first;
            while k < line_match.end
                invariant
                    line_match.first <= k <= line_match.end <= n,
                    n == addresses@.len(),
                    frames_per_address@.len() == n,
                    0 <= line < lines.len(),
                    location@ == location_of(lines[line]),
                    forall|x: int|
                        0 <= x < n ==> (#[trigger] frames_per_address@[x])@.len() == 1
                            && frames_per_address@[x]@[0]@ == (FrameView {
                            function: Some(proc.name@),
                            location: if line_match.first <= x < k {
                                Some(location_of(lines[line]))
                            } else {
                                procedure_location(lines, outer_end_rva, addresses@[x], line)
                            },
                        }),
                decreases line_match.end - k,
            {
                frames_per_address[k][0].location = Some(location.clone());
                k += 1;
            }
            proof {
                assert forall|x: int| 0 <= x < n implies (#[trigger] frames_per_address@[x])@[0]@
                    == (FrameView {
                    function: Some(proc.name@),
                    location: procedure_location(lines, outer_end_rva, addresses@[x], line + 1),
                }) by {
                    assert((line_match.first <= x < line_match.end) <==> covers(
                        line_infos@[m as int].line as int,
                        addresses@[x],
                    ));
                }
                done = line + 1;
            }
            m += 1;
        }
        proof {
            assert forall|x: int| 0 <= x < n implies (#[trigger] frames_per_address@[x])@[0]@
                == procedure_frame(*proc, outer_end_rva, addresses@[x]) by {
                assert forall|i: int| done <= i < lines.len() implies !covers_no_size(
                    lines,
                    i,
                    outer_end_rva,
                    addresses@[x],
                ) by {
                    lemma_gap_covers_nothing(
                        line_infos@,
                        lines.len() as int,
                        addresses@,
                        covers,
                        m as int,
                        i,
                        x,
                    );
                }
                lemma_location_unchanged(
                    lines,
                    outer_end_rva,
                    addresses@[x],
                    done,
                    lines.len() as int,
                );
            }
            assert forall|x: int| 0 <= x < n implies frames_view(
                (#[trigger] frames_per_address@[x])@,
            ) == seq![procedure_frame(*proc, outer_end_rva, addresses@[x])] + inline_frames(
                symbols,
                from,
                from,
                addresses@[x],
            ) by {
                assert(frames_view(frames_per_address@[x]@) =~= seq![
                    procedure_frame(*proc, outer_end_rva, addresses@[x]),
                ]);
            }
        }

        if symbol_index < module_info.symbols.len() {
            // Skip the procedure symbol that we're currently in.
            match &module_info.symbols[symbol_index] {
                ModuleSymbol::Unreadable => {
                    return Err(SymbolUnreadable { symbol: symbol_index });
                },
                _ => {},
            }
            let mut s: usize = symbol_index + 1;
            while s < module_info.symbols.len()
                invariant
                    from == symbol_index + 1,
                    from <= s <= symbols.len(),
                    symbols == module_info.symbols@,
                    !(symbols[symbol_index as int] is Unreadable),
                    n == addresses@.len(),
                    sorted(addresses@),
                    frames_per_address@.len() == n,
                    scan_end(symbols, from) == scan_end(symbols, s as int),
                    inline_sites_fit(symbols, from, scan_end(symbols, from)),
                    forall|x: int|
                        0 <= x < n ==> frames_view((#[trigger] frames_per_address@[x])@) == seq![
                            procedure_frame(*proc, outer_end_rva, addresses@[x]),
                        ] + inline_frames(symbols, from, s as int, addresses@[x]),
                ensures
                    scan_end(symbols, from) == s,
                    s < symbols.len() ==> symbols[s as int] is Procedure,
                decreases symbols.len() - s,
            {
                match &module_info.symbols[s] {
                    ModuleSymbol::Procedure(_) => {
                        // This is the start of the procedure after the one we care about.
                        break ;
                    },
                    ModuleSymbol::Unreadable => {
                        return Err(SymbolUnreadable { symbol: s });
                    },
                    ModuleSymbol::InlineSite(site) => {
                        proof {
                            assert(scan_end(symbols, s as int) == scan_end(symbols, s + 1));
                            assert(s < scan_end(symbols, from)) by {
                                lemma_scan_end_bounds(symbols, s + 1);
                            }
                            assert(symbols[s as int] == ModuleSymbol::InlineSite(*site));
                        }
                        self.add_inline_site_frames(
                            site,
                            addresses,
                            &mut frames_per_address,
                            Ghost(
                                |x: int|
                                    seq![procedure_frame(*proc, outer_end_rva, addresses@[x])]
                                        + inline_frames(symbols, from, s as int, addresses@[x]),
                            ),
                        );
                        proof {
                            assert forall|x: int| 0 <= x < n implies frames_view(
                                (#[trigger] frames_per_address@[x])@,
                            ) == seq![procedure_frame(*proc, outer_end_rva, addresses@[x])]
                                + inline_frames(symbols, from, s + 1, addresses@[x]) by {
                                let head = seq![
                                    procedure_frame(*proc, outer_end_rva, addresses@[x]),
                                ];
                                let before = inline_frames(symbols, from, s as int, addresses@[x]);
                                let added = symbol_frames(symbols[s as int], addresses@[x]);
                                assert((head + before) + added =~= head + (before + added));
                            }
                        }
                    },
                    ModuleSymbol::Other => {
                        proof {
                            assert forall|x: int| 0 <= x < n implies inline_frames(
                                symbols,
                                from,
                                s + 1,
                                addresses@[x],
                            ) =~= inline_frames(symbols, from, s as int, addresses@[x]) by {}
                        }
                    },
                }
                s += 1;
            }
        } else {
            proof {
                assert(scan_end(symbols, from) == symbols.len());
                assert forall|x: int| 0 <= x < n implies inline_frames(
                    symbols,
                    from,
                    symbols.len() as int,
                    #[trigger] addresses@[x],
                ) =~= inline_frames(symbols, from, from, addresses@[x]) by {}
            }
        }
        proof {
            assert forall|x: int| 0 <= x < n implies frames_view(
                (#[trigger] frames_per_address@[x])@,
            ) == frames_for_address(
                *proc,
                outer_end_rva,
                symbols,
                symbol_index as int,
                addresses@[x],
            ) by {}
        }

        let ghost all = frames_per_address@;
        let map = index_by_address(addresses, frames_per_address);
        proof {
            assert forall|a: u32| #[trigger] map@.contains_key(a) implies frames_view(map@[a]@)
                == frames_for_address(
                *proc,
                procedure_rva_range.end,
                module_info.symbols@,
                symbol_index as int,
                a,
            ) by {
                let w = choose|w: int|
                    0 <= w < addresses@.len() && addresses@[w] == a && map@[a] == all[w];
                assert(frames_view(all[w]@) == frames_for_address(
                    *proc,
                    procedure_rva_range.end,
                    module_info.symbols@,
                    symbol_index as int,
                    a,
                ));
            }
        }
        Ok(map)
    }

    /// Appends, to the stack of each address, the frames that `site`
    /// contributes there.
    fn add_inline_site_frames(
        &self,
        site: &InlineSiteSymbol,
        addresses: &[u32],
        frames_per_address: &mut Vec<Vec<Frame>>,
        Ghost(before): Ghost<spec_fn(int) -> Seq<FrameView>>,
    )
        requires
            sorted(addresses@),
            site.lines matches Some(lines) ==> sized_lines_fit(lines@),
            old(frames_per_address)@.len() == addresses@.len(),
            forall|x: int|
                0 <= x < addresses@.len() ==> frames_view((#[trigger] old(frames_per_address)@[x])@)
                    == before(x),
        ensures
            final(frames_per_address)@.len() == addresses@.len(),
            forall|x: int|
                0 <= x < addresses@.len() ==> frames_view(
                    (#[trigger] final(frames_per_address)@[x])@,
                ) == before(x) + symbol_frames(ModuleSymbol::InlineSite(*site), addresses@[x]),
    {
        let n = addresses.len();
        let inline_frames_for_addresses = match site.frames_for_addresses_for_inline_symbol(
            addresses,
        ) {
            Some(frames) => frames,
            None => {
                proof {
                    assert forall|x: int| 0 <= x < n implies frames_view(
                        (#[trigger] frames_per_address@[x])@,
                    ) == before(x) + symbol_frames(
                        ModuleSymbol::InlineSite(*site),
                        addresses@[x],
                    ) by {
                        if let Some(lines) = site.lines {
                            lemma_site_frames_unchanged(
                                site.name@,
                                lines@,
                                addresses@[x],
                                0,
                                lines@.len() as int,
                            );
                        }
                        assert(before(x) + Seq::<FrameView>::empty() =~= before(x));
                    }
                }
                return ;
            },
        };
        let ghost lines = site.lines->Some_0@;
        let ghost name = site.name@;
        let ghost covers = |i: int, a: u32| covers_with_size(lines, i, a);
        let ghost matches = inline_frames_for_addresses@.map_values(|p: (LineMatch, Frame)| p.0);
        let mut j: usize = 0;
        let ghost mut done: int = 0;
        proof {
            assert forall|x: int| 0 <= x < n implies frames_view(
                (#[trigger] frames_per_address@[x])@,
            ) == before(x) + site_frames(name, lines, addresses@[x], 0) by {
                assert(before(x) + site_frames(name, lines, addresses@[x], 0) =~= before(x));
            }
        }
        while j < inline_frames_for_addresses.len()
            invariant
                0 <= j <= inline_frames_for_addresses@.len(),
                n == addresses@.len(),
                frames_per_address@.len() == n,
                matches == inline_frames_for_addresses@.map_values(|p: (LineMatch, Frame)| p.0),
                covers == (|i: int, a: u32| covers_with_size(lines, i, a)),
                lists_covering_lines(matches, lines.len() as int, addresses@, covers),
                forall|x: int|
                    0 <= x < inline_frames_for_addresses@.len() ==> (
                    #[trigger] inline_frames_for_addresses@[x]).1@ == site_frame(
                        name,
                        lines,
                        inline_frames_for_addresses@[x].0.line as int,
                    ),
                0 <= done <= lines.len(),
                j > 0 ==> done == matches[j - 1].line + 1,
                j == 0 ==> done == 0,
                forall|x: int|
                    0 <= x < n ==> frames_view((#[trigger] frames_per_address@[x])@) == before(x)
                        + site_frames(name, lines, addresses@[x], done),
            decreases inline_frames_for_addresses@.len() - j,
        {
            let line_match = inline_frames_for_addresses[j].0;
            let ghost line = line_match.line as int;
            proof {
                assert(matches[j as int] == line_match);
                if j > 0 {
                    assert(matches[j - 1].line < matches[j as int].line);
                }
                assert forall|x: int| 0 <= x < n implies site_frames(
                    name,
                    lines,
                    addresses@[x],
                    line,
                ) == site_frames(name, lines, addresses@[x], done) by {
                    assert forall|i: int| done <= i < line implies !covers_with_size(
                        lines,
                        i,
                        addresses@[x],
                    ) by {
                        lemma_gap_covers_nothing(
                            matches,
                            lines.len() as int,
                            addresses@,
                            covers,
                            j as int,
                            i,
                            x,
                        );
                    }
                    lemma_site_frames_unchanged(name, lines, addresses@[x], done, line);
                }
                assert forall|x: int| line_match.first <= x < line_match.end implies covers_with_size(
                    lines,
                    line,
                    #[trigger] addresses@[x],
                ) by {
                    assert((line_match.first <= x < line_match.end) <==> covers(
                        matches[j as int].line as int,
                        addresses@[x],
                    ));
                }
            }
            let mut k: usize = line_match.first;
            while k < line_match.end
                invariant
                    line_match.first <= k <= line_match.end <= n,
                    0 <= j < inline_frames_for_addresses@.len(),
                    n == addresses@.len(),
                    frames_per_address@.len() == n,
                    0 <= line < lines.len(),
                    inline_frames_for_addresses@[j as int].1@ == site_frame(name, lines, line),
                    forall|x: int|
                        line_match.first <= x < line_match.end ==> covers_with_size(
                            lines,
                            line,
                            #[trigger] addresses@[x],
                        ),
                    forall|x: int|
                        0 <= x < n ==> frames_view((#[trigger] frames_per_address@[x])@) == before(
                            x,
                        ) + site_frames(
                            name,
                            lines,
                            addresses@[x],
                            if line_match.first <= x < k {
                                line + 1
                            } else {
                                line
                            },
                        ),
                decreases line_match.end - k,
            {
                let frame = inline_frames_for_addresses[j].1.clone();
                let ghost old_frames = frames_per_address@[k as int]@;
                frames_per_address[k].push(frame);
                proof {
                    lemma_frames_view_push(old_frames, frame);
                    let a = addresses@[k as int];
                    assert(covers_with_size(lines, line, a));
                    assert((before(k as int) + site_frames(name, lines, a, line)).push(frame@)
                        =~= before(k as int) + site_frames(name, lines, a, line + 1));
                }
                k += 1;
            }
            proof {
                assert forall|x: int| 0 <= x < n implies frames_view(
                    (#[trigger] frames_per_address@[x])@,
                ) == before(x) + site_frames(name, lines, addresses@[x], line + 1) by {
                    assert((line_match.first <= x < line_match.end) <==> covers(
                        matches[j as int].line as int,
                        addresses@[x],
                    ));
                }
                done = line + 1;
            }
            j += 1;
        }
        proof {
            assert forall|x: int| 0 <= x < n implies site_frames(
                name,
                lines,
                addresses@[x],
                lines.len() as int,
            ) == site_frames(name, lines, addresses@[x], done) by {
                assert forall|i: int| done <= i < lines.len() implies !covers_with_size(
                    lines,
                    i,
                    addresses@[x],
                ) by {
                    lemma_gap_covers_nothing(
                        matches,
                        lines.len() as int,
                        addresses@,
                        covers,
                        j as int,
                        i,
                        x,
                    );
                }
                lemma_site_frames_unchanged(
                    name,
                    lines,
                    addresses@[x],
                    done,
                    lines.len() as int,
                );
            }
        }
    }
}

/// A walk that starts at `from` stops at or after `from`, within the stream.
pub proof fn lemma_scan_end_bounds(symbols: Seq<ModuleSymbol>, from: int)
    requires
        0 <= from,
    ensures
        scan_end(symbols, from) <= symbols.len(),
        from <= symbols.len() ==> from <= scan_end(symbols, from),
    decreases symbols.len() - from,
{
    if from < symbols.len() && !(symbols[from] is Procedure || symbols[from] is Unreadable) {
        lemma_scan_end_bounds(symbols, from + 1);
    }
}

/// Whether every record has an RVA.
pub fn lines_have_rva(lines: &[LineInfo]) -> (b: bool)
    ensures
        b == all_lines_have_rva(lines@),
{
    let mut i: usize = 0;
    while i < lines.len()
        invariant
            0 <= i <= lines@.len(),
            forall|j: int| 0 <= j < i ==> (#[trigger] lines@[j]).start_rva is Some,
        decreases lines@.len() - i,
    {
        if lines[i].start_rva.is_none() {
            return false;
        }
        i += 1;
    }
    true
}

/// Whether every record that has a length also has an RVA, and ends within
/// the 32-bit address space.
pub fn sized_lines_are_placed(lines: &[LineInfo]) -> (b: bool)
    ensures
        b == sized_lines_fit(lines@),
{
    let mut i: usize = 0;
    while i < lines.len()
        invariant
            0 <= i <= lines@.len(),
            forall|j: int|
                0 <= j < i && (#[trigger] lines@[j]).length is Some ==> lines@[j].start_rva is Some
                    && lines@[j].start_rva->Some_0 + lines@[j].length->Some_0 <= u32::MAX,
        decreases lines@.len() - i,
    {
        match lines[i].length {
            Some(length) => match lines[i].start_rva {
                Some(start_rva) => {
                    if length > u32::MAX - start_rva {
                        return false;
                    }
                },
                None => {
                    return false;
                },
            },
            None => {},
        }
        i += 1;
    }
    true
}

/// Whether the inline sites that a walk from `from` passes have line
/// records that can be placed.
pub fn inline_sites_are_placed(symbols: &[ModuleSymbol], from: usize) -> (b: bool)
    ensures
        b == inline_sites_fit(symbols@, from as int, scan_end(symbols@, from as int)),
{
    let mut s: usize = from;
    proof {
        lemma_scan_end_bounds(symbols@, from as int);
    }
    while s < symbols.len()
        invariant
            from <= s,
            s <= symbols@.len() || s == from,
            scan_end(symbols@, from as int) == scan_end(symbols@, s as int),
            inline_sites_fit(symbols@, from as int, s as int),
        ensures
            s == scan_end(symbols@, from as int) || (from > symbols@.len() && s == from),
            inline_sites_fit(symbols@, from as int, s as int),
        decreases symbols@.len() - s,
    {
        match &symbols[s] {
            ModuleSymbol::Procedure(_) => {
                break ;
            },
            ModuleSymbol::Unreadable => {
                break ;
            },
            ModuleSymbol::InlineSite(site) => {
                match &site.lines {
                    Some(lines) => {
                        if !sized_lines_are_placed(lines.as_slice()) {
                            proof {
                                lemma_scan_end_bounds(symbols@, s + 1);
                                assert(symbols@[s as int] == ModuleSymbol::InlineSite(*site));
                            }
                            return false;
                        }
                    },
                    None => {},
                }
            },
            ModuleSymbol::Other => {},
        }
        s += 1;
    }
    true
}

/// Where the last line record of the procedure ends: with the procedure, or
/// where its line program broke off.
pub open spec fn lines_end(proc: ProcedureSymbol) -> u32 {
    match proc.lines_end_rva {
        Some(end) => end,
        None => (proc.start_rva->Some_0 + proc.len) as u32,
    }
}

/// Whether the procedure's range `[start, start + len)` contains `address`.
pub open spec fn procedure_contains(proc: ProcedureSymbol, address: u32) -> bool {
    proc.start_rva is Some && proc.start_rva->Some_0 <= address < proc.start_rva->Some_0 + proc.len
}

/// What a walk over one module's symbols finds.
#[derive(Clone, Copy, Debug, PartialEq, Eq, Structural)]
pub enum SymbolSearch {
    /// The first procedure that contains the address is the symbol at this index.
    Found(usize),
    /// The stream could not be read at this index.
    Unreadable(usize),
    /// No procedure contains the address.
    NotFound,
}

/// The outcome of looking, from index `from` on, for the first procedure that
/// contains `address`.
pub open spec fn search_symbols(symbols: Seq<ModuleSymbol>, address: u32, from: int) -> SymbolSearch
    decreases symbols.len() - from,
{
    if from < 0 || from >= symbols.len() {
        SymbolSearch::NotFound
    } else {
        match symbols[from] {
            ModuleSymbol::Unreadable => SymbolSearch::Unreadable(from as usize),
            ModuleSymbol::Procedure(proc) => if procedure_contains(proc, address) {
                SymbolSearch::Found(from as usize)
            } else {
                search_symbols(symbols, address, from + 1)
            },
            _ => search_symbols(symbols, address, from + 1),
        }
    }
}

/// Looks through a module's symbols for the first procedure that contains `address`.
pub fn find_procedure(symbols: &[ModuleSymbol], address: u32) -> (found: SymbolSearch)
    ensures
        found == search_symbols(symbols@, address, 0),
        found matches SymbolSearch::Found(i) ==> i < symbols@.len() && symbols@[i as int] is Procedure
            && procedure_contains(symbols@[i as int]->Procedure_0, address),
{
    let mut i: usize = 0;
    while i < symbols.len()
        invariant
            0 <= i <= symbols@.len(),
            search_symbols(symbols@, address, 0) == search_symbols(symbols@, address, i as int),
        decreases symbols@.len() - i,
    {
        match &symbols[i] {
            ModuleSymbol::Unreadable => {
                return SymbolSearch::Unreadable(i);
            },
            ModuleSymbol::Procedure(proc) => {
                match proc.start_rva {
                    Some(start) => {
                        if start <= address && address - start < proc.len {
                            return SymbolSearch::Found(i);
                        }
                    },
                    None => {},
                }
            },
            _ => {},
        }
        i += 1;
    }
    SymbolSearch::NotFound
}

/// What a lookup over all modules comes to before any frame is built.
#[derive(Clone, Copy, Debug, PartialEq, Eq, Structural)]
pub enum Lookup {
    /// No procedure of any module contains the address.
    Missing,
    /// Reading failed before a procedure was found.
    Failed(Addr2LineError),
    /// The procedure is the symbol at `symbol` of the module at `module`.
    Hit { module: usize, symbol: usize },
}

/// The outcome of going through the modules from index `from` on, looking for
/// the first procedure that contains `address`.
pub open spec fn locate(modules: Seq<ModuleEntry>, address: u32, from: int) -> Lookup
    decreases modules.len() - from,
{
    if from < 0 || from >= modules.len() {
        Lookup::Missing
    } else {
        match modules[from] {
            ModuleEntry::Absent => locate(modules, address, from + 1),
            ModuleEntry::Unreadable => Lookup::Failed(
                Addr2LineError::ModuleUnreadable { module: from as usize },
            ),
            ModuleEntry::Present(info) => match search_symbols(info.symbols@, address, 0) {
                SymbolSearch::NotFound => locate(modules, address, from + 1),
                SymbolSearch::Unreadable(symbol) => Lookup::Failed(
                    Addr2LineError::SymbolUnreadable { module: from as usize, symbol },
                ),
                SymbolSearch::Found(symbol) => if info.line_program_readable {
                    Lookup::Hit { module: from as usize, symbol }
                } else {
                    Lookup::Failed(Addr2LineError::LineProgramUnreadable { module: from as usize })
                },
            },
        }
    }
}

/// The procedure that a hit names.
pub open spec fn hit_procedure(modules: Seq<ModuleEntry>, module: usize, symbol: usize) -> ProcedureSymbol {
    modules[module as int]->Present_0.symbols@[symbol as int]->Procedure_0
}

/// The symbols of the module that a hit names.
pub open spec fn hit_symbols(modules: Seq<ModuleEntry>, module: usize) -> Seq<ModuleSymbol> {
    modules[module as int]->Present_0.symbols@
}

impl Addr2LineContext {
    /// Whether the records that a lookup of `address` reads can be placed in
    /// the 32-bit address space: the procedure found ends within it, each of
    /// its lines has an RVA, and so does each sized line of its inline sites.
    pub open spec fn lookup_fits(&self, address: u32) -> bool {
        locate(self.modules(), address, 0) matches Lookup::Hit { module, symbol } ==> {
            let proc = hit_procedure(self.modules(), module, symbol);
            let symbols = hit_symbols(self.modules(), module);
            &&& proc.start_rva->Some_0 + proc.len <= u32::MAX
            &&& all_lines_have_rva(proc.lines@)
            &&& inline_sites_fit(symbols, symbol + 1, scan_end(symbols, symbol + 1))
        }
    }

    /// Goes through the modules, looking for the first procedure that
    /// contains `address`.
    pub fn find(&self, address: u32) -> (found: Lookup)
        ensures
            found == locate(self.modules(), address, 0),
            found matches Lookup::Hit { module, symbol } ==> {
                &&& module < self.modules().len()
                &&& self.modules()[module as int] is Present
                &&& symbol < hit_symbols(self.modules(), module).len()
                &&& hit_symbols(self.modules(), module)[symbol as int] is Procedure
                &&& procedure_contains(hit_procedure(self.modules(), module, symbol), address)
            },
    {
        let mut module: usize = 0;
        while module < self.modules.len()
            invariant
                0 <= module <= self.modules@.len(),
                locate(self.modules(), address, 0) == locate(self.modules(), address, module as int),
            decreases self.modules@.len() - module,
        {
            match &self.modules[module] {
                ModuleEntry::Absent => {},
                ModuleEntry::Unreadable => {
                    return Lookup::Failed(Addr2LineError::ModuleUnreadable { module });
                },
                ModuleEntry::Present(module_info) => {
                    match find_procedure(module_info.symbols.as_slice(), address) {
                        SymbolSearch::NotFound => {},
                        SymbolSearch::Unreadable(symbol) => {
                            return Lookup::Failed(
                                Addr2LineError::SymbolUnreadable { module, symbol },
                            );
                        },
                        SymbolSearch::Found(symbol) => {
                            if !module_info.line_program_readable {
                                return Lookup::Failed(
                                    Addr2LineError::LineProgramUnreadable { module },
                                );
                            }
                            return Lookup::Hit { module, symbol };
                        },
                    }
                },
            }
            module += 1;
        }
        Lookup::Missing
    }

    /// Whether [`Addr2LineContext::find_frames`] can place the records that
    /// it reads for `address`.
    pub fn can_look_up(&self, address: u32) -> (b: bool)
        ensures
            b == self.lookup_fits(address),
    {
        match self.find(address) {
            Lookup::Hit { module, symbol } => {
                match &self.modules[module] {
                    ModuleEntry::Present(module_info) => {
                        match &module_info.symbols[symbol] {
                            ModuleSymbol::Procedure(proc) => {
                                let start = proc.start_rva.unwrap();
                                let n_symbols = module_info.symbols.len();
                                assert(symbol < n_symbols);
                                assert(*proc == hit_procedure(self.modules(), module, symbol));
                                assert(module_info.symbols@ == hit_symbols(
                                    self.modules(),
                                    module,
                                ));
                                proc.len <= u32::MAX - start && lines_have_rva(
                                    proc.lines.as_slice(),
                                ) && inline_sites_are_placed(
                                    module_info.symbols.as_slice(),
                                    symbol + 1,
                                )
                            },
                            _ => unreached(),
                        }
                    },
                    _ => unreached(),
                }
            },
            _ => true,
        }
    }

    /// The call stack at `address`, outermost frame first; empty where no
    /// procedure contains the address.
    pub fn find_frames(&self, address: u32) -> (r: Result<Vec<Frame>, Addr2LineError>)
        requires
            self.lookup_fits(address),
        ensures
            match locate(self.modules(), address, 0) {
                Lookup::Missing => r matches Ok(frames) && frames@.len() == 0,
                Lookup::Failed(e) => r == Err::<Vec<Frame>, Addr2LineError>(e),
                Lookup::Hit { module, symbol } => {
                    let proc = hit_procedure(self.modules(), module, symbol);
                    let symbols = hit_symbols(self.modules(), module);
                    match first_unreadable(symbols, symbol as int) {
                        Some(s) => r == Err::<Vec<Frame>, Addr2LineError>(
                            Addr2LineError::SymbolUnreadable { module, symbol: s as usize },
                        ),
                        None => r matches Ok(frames) && frames_view(frames@) == frames_for_address(
                            proc,
                            lines_end(proc),
                            symbols,
                            symbol as int,
                            address,
                        ),
                    }
                },
            },
    {
        let (module, symbol) = match self.find(address) {
            Lookup::Missing => {
                return Ok(Vec::new());
            },
            Lookup::Failed(error) => {
                return Err(error);
            },
            Lookup::Hit { module, symbol } => (module, symbol),
        };
        match &self.modules[module] {
            ModuleEntry::Present(module_info) => {
                match &module_info.symbols[symbol] {
                    ModuleSymbol::Procedure(proc) => {
                        let start = proc.start_rva.unwrap();
                        let procedure_end = start + proc.len;
                        let lines_end = match proc.lines_end_rva {
                            Some(end) => end,
                            None => procedure_end,
                        };
                        let procedure_rva_range = start..lines_end;
                        match self.find_frames_from_procedure(
                            address,
                            module_info,
                            symbol,
                            proc,
                            procedure_rva_range,
                        ) {
                            Ok(frames) => Ok(frames),
                            Err(e) => Err(
                                Addr2LineError::SymbolUnreadable { module, symbol: e.symbol },
                            ),
                        }
                    },
                    _ => unreached(),
                }
            },
            _ => unreached(),
        }
    }

    /// The call stack at `address`, which lies in the procedure `proc`, the
    /// symbol at `symbol_index` of `module_info`; outermost frame first. The
    /// last line record of the procedure ends at the end of
    /// `procedure_rva_range`.
    pub fn find_frames_from_procedure(
        &self,
        address: u32,
        module_info: &ModuleInfo,
        symbol_index: usize,
        proc: &ProcedureSymbol,
        procedure_rva_range: Range<u32>,
    ) -> (r: Result<Vec<Frame>, SymbolUnreadable>)
        requires
            all_lines_have_rva(proc.lines@),
            inline_sites_fit(
                module_info.symbols@,
                symbol_index + 1,
                scan_end(module_info.symbols@, symbol_index + 1),
            ),
        ensures
            match r {
                Ok(frames) => first_unreadable(module_info.symbols@, symbol_index as int) is None
                    && frames_view(frames@) == frames_for_address(
                    *proc,
                    procedure_rva_range.end,
                    module_info.symbols@,
                    symbol_index as int,
                    address,
                ),
                Err(e) => first_unreadable(module_info.symbols@, symbol_index as int) == Some(
                    e.symbol as int,
                ),
            },
    {
        let mut addresses: Vec<u32> = Vec::new();
        addresses.push(address);
        assert(addresses@.contains(address)) by {
            assert(addresses@[0] == address);
        }
        match self.find_frames_for_addresses_from_procedure(
            addresses.as_slice(),
            module_info,
            symbol_index,
            proc,
            procedure_rva_range,
        ) {
            Ok(map) => Ok(take_frames(map, address)),
            Err(e) => Err(e),
        }
    }
}

/// A source of values that gives one value, or fails once, and is then empty.
pub struct Once<T, E> {
    value: Option<Result<T, E>>,
}

/// A source that gives `value` once.
pub fn fallible_once<T, E>(value: Result<T, E>) -> (once: Once<T, E>)
    ensures
        once.pending() == Some(value),
{
    Once { value: Some(value) }
}

impl<T, E> Once<T, E> {
    /// What the source has yet to give.
    pub closed spec fn pending(&self) -> Option<Result<T, E>> {
        self.value
    }

    /// Takes what the source has to give: the value or the failure the
    /// first time, nothing after that.
    pub fn next(&mut self) -> (given: Result<Option<T>, E>)
        ensures
            final(self).pending() is None,
            given == match old(self).pending() {
                Some(Ok(value)) => Ok::<Option<T>, E>(Some(value)),
                Some(Err(err)) => Err::<Option<T>, E>(err),
                None => Ok::<Option<T>, E>(None),
            },
    {
        let mut value: Option<Result<T, E>> = None;
        std::mem::swap(&mut value, &mut self.value);
        match value {
            Some(Ok(value)) => Ok(Some(value)),
            Some(Err(err)) => Err(err),
            None => Ok(None),
        }
    }
}

} // verus!
