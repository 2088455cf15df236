//! What holds of the call stack at an address.

use crate::pdb::addr2line::{
    covers_with_size, frames_for_address, inline_frames, lemma_scan_end_bounds, procedure_frame,
    scan_end, site_frame, site_frames, symbol_frames, FrameView, LineInfo, ModuleSymbol,
    ProcedureSymbol,
};
use vstd::prelude::*;

verus! {

/// The symbol is an inline site that contains the address `a`: its inlinee
/// is known and one of its lines covers the address.
pub open spec fn site_contains(symbol: ModuleSymbol, a: u32) -> bool {
    symbol matches ModuleSymbol::InlineSite(site) && site.lines matches Some(lines) && exists|
        i: int,
    |
        0 <= i < lines@.len() && covers_with_size(lines@, i, a)
}

/// At most one of the lines covers the address `a`.
pub open spec fn at_most_one_line_covers(lines: Seq<LineInfo>, a: u32) -> bool {
    forall|i: int, j: int|
        0 <= i < lines.len() && 0 <= j < lines.len() && covers_with_size(lines, i, a)
            && covers_with_size(lines, j, a) ==> i == j
}

/// No inline site among the symbols `from..upto` has two lines that cover
/// the address `a`.
pub open spec fn sites_have_disjoint_lines(
    symbols: Seq<ModuleSymbol>,
    from: int,
    upto: int,
    a: u32,
) -> bool {
    forall|s: int|
        from <= s < upto && 0 <= s < symbols.len() ==> match #[trigger] symbols[s] {
            ModuleSymbol::InlineSite(site) => match site.lines {
                Some(lines) => at_most_one_line_covers(lines@, a),
                None => true,
            },
            _ => true,
        }
}

/// The number of inline sites among the symbols `from..upto` that contain
/// the address `a`.
pub open spec fn containing_sites(symbols: Seq<ModuleSymbol>, from: int, upto: int, a: u32) -> nat
    decreases upto - from,
{
    if upto <= from {
        0
    } else {
        containing_sites(symbols, from, upto - 1, a) + if site_contains(symbols[upto - 1], a) {
            1nat
        } else {
            0nat
        }
    }
}

/// `frame` is the frame of line `i` of the inline site `symbol`, and that
/// line covers the address `a`.
pub open spec fn is_frame_of_line(symbol: ModuleSymbol, i: int, a: u32, frame: FrameView) -> bool {
    &&& symbol is InlineSite
    &&& symbol->InlineSite_0.lines is Some
    &&& 0 <= i < symbol->InlineSite_0.lines->Some_0@.len()
    &&& covers_with_size(symbol->InlineSite_0.lines->Some_0@, i, a)
    &&& frame == site_frame(symbol->InlineSite_0.name@, symbol->InlineSite_0.lines->Some_0@, i)
}

/// A frame of an inline site among the symbols `from..upto` that contains
/// the address `a`: the site's name, and the source position of one of its
/// lines that cover the address.
pub open spec fn is_frame_of_containing_site(
    symbols: Seq<ModuleSymbol>,
    from: int,
    upto: int,
    a: u32,
    frame: FrameView,
) -> bool {
    exists|s: int, i: int|
        from <= s < upto && 0 <= s < symbols.len() && #[trigger] is_frame_of_line(
            symbols[s],
            i,
            a,
            frame,
        )
}

/// Each frame of one site is the frame of a line that covers the address.
proof fn lemma_site_frames_come_from_lines(name: Seq<char>, lines: Seq<LineInfo>, a: u32, upto: int)
    requires
        0 <= upto <= lines.len(),
    ensures
        forall|j: int|
            0 <= j < site_frames(name, lines, a, upto).len() ==> exists|i: int|
                0 <= i < upto && covers_with_size(lines, i, a) && #[trigger] site_frames(
                    name,
                    lines,
                    a,
                    upto,
                )[j] == #[trigger] site_frame(name, lines, i),
        (forall|i: int| 0 <= i < upto ==> !covers_with_size(lines, i, a)) ==> site_frames(
            name,
            lines,
            a,
            upto,
        ).len() == 0,
        (exists|i: int| 0 <= i < upto && covers_with_size(lines, i, a)) ==> site_frames(
            name,
            lines,
            a,
            upto,
        ).len() >= 1,
        at_most_one_line_covers(lines, a) ==> site_frames(name, lines, a, upto).len() <= 1,
    decreases upto,
{
    if upto > 0 {
        lemma_site_frames_come_from_lines(name, lines, a, upto - 1);
        let before = site_frames(name, lines, a, upto - 1);
        let all = site_frames(name, lines, a, upto);
        assert forall|j: int| 0 <= j < all.len() implies exists|i: int|
            0 <= i < upto && covers_with_size(lines, i, a) && #[trigger] all[j]
                == #[trigger] site_frame(name, lines, i) by {
            if j < before.len() {
                let i = choose|i: int|
                    0 <= i < upto - 1 && covers_with_size(lines, i, a) && before[j]
                        == #[trigger] site_frame(name, lines, i);
                assert(all[j] == site_frame(name, lines, i));
            } else {
                assert(all[j] == site_frame(name, lines, upto - 1));
            }
        }
        if at_most_one_line_covers(lines, a) && covers_with_size(lines, upto - 1, a) {
            assert forall|i: int| 0 <= i < upto - 1 implies !covers_with_size(lines, i, a) by {}
        }
    }
}

/// The inline frames at an address: each belongs to a site that contains
/// the address, and where no site has two lines that cover the address,
/// there are as many frames as containing sites.
pub proof fn lemma_inline_frames(symbols: Seq<ModuleSymbol>, from: int, upto: int, a: u32)
    requires
        0 <= from,
        upto <= symbols.len(),
    ensures
        forall|j: int|
            0 <= j < inline_frames(symbols, from, upto, a).len() ==> is_frame_of_containing_site(
                symbols,
                from,
                upto,
                a,
                #[trigger] inline_frames(symbols, from, upto, a)[j],
            ),
        sites_have_disjoint_lines(symbols, from, upto, a) ==> inline_frames(
            symbols,
            from,
            upto,
            a,
        ).len() == containing_sites(symbols, from, upto, a),
    decreases upto - from,
{
    if upto > from {
        lemma_inline_frames(symbols, from, upto - 1, a);
        let before = inline_frames(symbols, from, upto - 1, a);
        let added = symbol_frames(symbols[upto - 1], a);
        let all = inline_frames(symbols, from, upto, a);
        match symbols[upto - 1] {
            ModuleSymbol::InlineSite(site) => match site.lines {
                Some(lines) => {
                    lemma_site_frames_come_from_lines(site.name@, lines@, a, lines@.len() as int);
                },
                None => {},
            },
            _ => {},
        }
        assert forall|j: int| 0 <= j < all.len() implies is_frame_of_containing_site(
            symbols,
            from,
            upto,
            a,
            #[trigger] all[j],
        ) by {
            if j < before.len() {
                assert(all[j] == before[j]);
                assert(is_frame_of_containing_site(symbols, from, upto - 1, a, before[j]));
                let (s, i) = choose|s: int, i: int|
                    from <= s < upto - 1 && 0 <= s < symbols.len() && #[trigger] is_frame_of_line(
                        symbols[s],
                        i,
                        a,
                        before[j],
                    );
                assert(from <= s < upto && is_frame_of_line(symbols[s], i, a, all[j]));
            } else {
                let site = symbols[upto - 1]->InlineSite_0;
                let lines = site.lines->Some_0;
                let k = j - before.len();
                assert(all[j] == added[k]);
                let i = choose|i: int|
                    0 <= i < lines@.len() && covers_with_size(lines@, i, a) && added[k]
                        == #[trigger] site_frame(site.name@, lines@, i);
                assert(is_frame_of_line(symbols[upto - 1], i, a, all[j]));
            }
        }
        if sites_have_disjoint_lines(symbols, from, upto, a) {
            assert(sites_have_disjoint_lines(symbols, from, upto - 1, a));
            if site_contains(symbols[upto - 1], a) {
                assert(added.len() == 1);
            } else {
                assert(added.len() == 0);
            }
        }
    }
}

/// The order of the frames at an address inside a procedure: the first
/// frame is the procedure's own, and each frame after it belongs to an
/// inline site of the procedure that contains the address. Where no site
/// has two lines that cover the address, the stack holds one frame more
/// than there are sites that contain the address.
pub proof fn lemma_frame_order(
    proc: ProcedureSymbol,
    outer_end_rva: u32,
    symbols: Seq<ModuleSymbol>,
    symbol_index: int,
    a: u32,
)
    requires
        0 <= symbol_index,
    ensures
        ({
            let frames = frames_for_address(proc, outer_end_rva, symbols, symbol_index, a);
            let first = symbol_index + 1;
            let end = scan_end(symbols, first);
            &&& frames.len() >= 1
            &&& frames[0] == procedure_frame(proc, outer_end_rva, a)
            &&& frames[0].function == Some(proc.name@)
            &&& forall|j: int|
                1 <= j < frames.len() ==> is_frame_of_containing_site(
                    symbols,
                    first,
                    end,
                    a,
                    #[trigger] frames[j],
                )
            &&& sites_have_disjoint_lines(symbols, first, end, a) ==> frames.len() == 1
                + containing_sites(symbols, first, end, a)
        }),
{
    let first = symbol_index + 1;
    let end = scan_end(symbols, first);
    lemma_scan_end_bounds(symbols, first);
    if first <= symbols.len() {
        lemma_inline_frames(symbols, first, end, a);
    } else {
        assert(end == symbols.len());
        assert(inline_frames(symbols, first, end, a).len() == 0);
        assert(containing_sites(symbols, first, end, a) == 0);
    }
    let frames = frames_for_address(proc, outer_end_rva, symbols, symbol_index, a);
    let inline = inline_frames(symbols, first, end, a);
    assert forall|j: int| 1 <= j < frames.len() implies is_frame_of_containing_site(
        symbols,
        first,
        end,
        a,
        #[trigger] frames[j],
    ) by {
        assert(frames[j] == inline[j - 1]);
    }
}

} // verus!
