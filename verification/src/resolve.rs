//! File resolution: for one radix, the entry of a listing that belongs to
//! each cell.

use crate::extract::CellPattern;
use crate::matcher::{captured_prefix, text_of};
use crate::scan::{
    capture_hits, hit_holds, hits_of, patterns_of, place_before, place_recorded, records,
    texts_of, Hit, HitModel,
};
use vstd::prelude::*;
use vstd::string::*;

verus! {

/// Hit `h` is a hit of cell `cell` that captured `radix`.
pub open spec fn hit_serves(hits: Seq<HitModel>, h: int, cell: nat, radix: Seq<char>) -> bool {
    0 <= h < hits.len() && hits[h].cell == cell && hits[h].radix == radix
}

/// What the slot of a cell must hold, given the hits: the lowest entry for
/// which a hit of the cell captured `radix`, and nothing where there is no
/// such hit.
pub open spec fn is_first_entry(
    hits: Seq<HitModel>,
    cell: nat,
    radix: Seq<char>,
    slot: Option<usize>,
) -> bool {
    match slot {
        Some(entry) => {
            &&& exists|h: int| #[trigger] hit_serves(hits, h, cell, radix) && hits[h].entry == entry
            &&& forall|h: int| #[trigger] hit_serves(hits, h, cell, radix) ==> entry <= hits[h].entry
        },
        None => forall|h: int| !#[trigger] hit_serves(hits, h, cell, radix),
    }
}

/// Entry `e` of the listing matches `pattern`, which captures `radix` in it.
pub open spec fn entry_matches(
    entries: Seq<Seq<char>>,
    pattern: Seq<char>,
    radix: Seq<char>,
    e: int,
) -> bool {
    0 <= e < entries.len() && captured_prefix(pattern, entries[e]) == Some(radix)
}

/// What the file of a cell must be, given the listing: the first entry that
/// matches the cell's pattern with `radix` captured, and nothing where no
/// entry does.
pub open spec fn is_resolved(
    entries: Seq<Seq<char>>,
    pattern: Seq<char>,
    radix: Seq<char>,
    file: Option<Seq<char>>,
) -> bool {
    match file {
        Some(name) => exists|e: int|
            {
                &&& #[trigger] entry_matches(entries, pattern, radix, e)
                &&& forall|d: int| 0 <= d < e ==> !#[trigger] entry_matches(entries, pattern, radix, d)
                &&& name == entries[e]
            },
        None => forall|e: int| !#[trigger] entry_matches(entries, pattern, radix, e),
    }
}

/// For each of `cells` cells, the lowest entry for which a hit of that cell
/// captured `radix`; `None` for a cell without such a hit.
pub fn first_entries(hits: &[Hit], radix: &str, cells: usize) -> (slots: Vec<Option<usize>>)
    ensures
        slots.len() == cells,
        forall|i: int|
            0 <= i < cells ==> is_first_entry(hits_of(hits@), i as nat, radix@, #[trigger] slots@[i]),
{
    let ghost models = hits_of(hits@);
    let wanted = String::from_str(radix);
    let mut slots: Vec<Option<usize>> = Vec::new();
    let mut i: usize = 0;
    while i < cells
        invariant
            i <= cells,
            slots.len() == i,
            forall|j: int| 0 <= j < i ==> (#[trigger] slots@[j]) is None,
        decreases cells - i,
    {
        slots.push(None);
        i = i + 1;
    }
    let mut h: usize = 0;
    while h < hits.len()
        invariant
            h <= hits.len(),
            models == hits_of(hits@),
            wanted@ == radix@,
            slots.len() == cells,
            forall|i: int|
                0 <= i < cells ==> is_first_entry(
                    models.take(h as int),
                    i as nat,
                    radix@,
                    #[trigger] slots@[i],
                ),
        decreases hits.len() - h,
    {
        let ghost seen = models.take(h as int);
        let ghost more = models.take(h + 1);
        let ghost held = slots@;
        let cell = hits[h].cell;
        let entry = hits[h].entry;
        assert(models[h as int] == hits@[h as int]@);
        let mut serves = false;
        if cell < cells && hits[h].radix == wanted {
            serves = match slots[cell] {
                Some(e) => entry < e,
                None => true,
            };
        }
        if serves {
            slots.set(cell, Some(entry));
        }
        proof {
            assert(more[h as int] == models[h as int]);
            assert forall|i: int| 0 <= i < cells implies is_first_entry(
                more,
                i as nat,
                radix@,
                #[trigger] slots@[i],
            ) by {
                assert(is_first_entry(seen, i as nat, radix@, held[i]));
                assert forall|k: int| #[trigger]
                    hit_serves(more, k, i as nat, radix@) && k < h implies hit_serves(
                    seen,
                    k,
                    i as nat,
                    radix@,
                ) && seen[k] == more[k] by {}
                if held[i] is Some {
                    let k = choose|k: int| #[trigger]
                        hit_serves(seen, k, i as nat, radix@) && seen[k].entry == held[i].unwrap();
                    assert(hit_serves(more, k, i as nat, radix@) && more[k] == seen[k]);
                }
                if hit_serves(more, h as int, i as nat, radix@) {
                    assert(i == cell);
                }
            }
        }
        h = h + 1;
    }
    assert(models.take(hits.len() as int) == models);
    slots
}

/// The first entry of a cell among hits that record a listing is the file
/// that resolves the cell in that listing.
pub proof fn lemma_first_entry_resolves(
    hits: Seq<HitModel>,
    entries: Seq<Seq<char>>,
    patterns: Seq<Seq<char>>,
    cell: int,
    radix: Seq<char>,
    slot: Option<usize>,
)
    requires
        records(hits, entries, patterns),
        0 <= cell < patterns.len(),
        is_first_entry(hits, cell as nat, radix, slot),
    ensures
        slot matches Some(e) ==> e < entries.len() && is_resolved(
            entries,
            patterns[cell],
            radix,
            Some(entries[e as int]),
        ),
        slot is None ==> is_resolved(entries, patterns[cell], radix, None),
{
    let pattern = patterns[cell];
    assert forall|d: int| #[trigger] entry_matches(entries, pattern, radix, d) implies exists|
        h: int,
    | #[trigger]
        hit_serves(hits, h, cell as nat, radix) && hits[h].entry == d by {
        assert(place_before(d, cell, entries.len() as int, 0));
        assert(captured_prefix(patterns[cell], entries[d]) is Some);
        assert(place_recorded(hits, d, cell));
        let h = choose|h: int|
            0 <= h < hits.len() && #[trigger] hits[h].entry == d && hits[h].cell == cell;
        assert(hit_holds(hits, entries, patterns, h));
        assert(hit_serves(hits, h, cell as nat, radix));
    }
    match slot {
        Some(e) => {
            let h = choose|h: int| #[trigger]
                hit_serves(hits, h, cell as nat, radix) && hits[h].entry == e;
            assert(hit_holds(hits, entries, patterns, h));
            assert(entry_matches(entries, pattern, radix, e as int));
        },
        None => {},
    }
}

/// Finds, for one radix, the file of each cell in a directory listing: the
/// first entry that the cell's pattern matches with exactly `radix`
/// captured. The result has one slot per cell, in the order of the cells;
/// the slot of a cell without such an entry, or with a pattern that is not
/// valid, is `None`.
pub fn resolve_files_for_radix(
    entries: &[String],
    radix: &str,
    cell_patterns: &[CellPattern],
) -> (files: Vec<Option<String>>)
    ensures
        files.len() == cell_patterns.len(),
        forall|i: int|
            0 <= i < cell_patterns.len() ==> is_resolved(
                texts_of(entries@),
                patterns_of(cell_patterns@)[i],
                radix@,
                text_of(#[trigger] files@[i]),
            ),
{
    let ghost names = texts_of(entries@);
    let ghost patterns = patterns_of(cell_patterns@);
    let hits = capture_hits(entries, cell_patterns);
    let slots = first_entries(hits.as_slice(), radix, cell_patterns.len());
    let mut files: Vec<Option<String>> = Vec::new();
    let mut i: usize = 0;
    while i < slots.len()
        invariant
            i <= slots.len(),
            slots.len() == cell_patterns.len(),
            files.len() == i,
            names == texts_of(entries@),
            patterns == patterns_of(cell_patterns@),
            records(hits_of(hits@), names, patterns),
            forall|j: int|
                0 <= j < slots.len() ==> is_first_entry(
                    hits_of(hits@),
                    j as nat,
                    radix@,
                    #[trigger] slots@[j],
                ),
            forall|j: int|
                0 <= j < i ==> is_resolved(names, patterns[j], radix@, text_of(#[trigger] files@[j])),
        decreases slots.len() - i,
    {
        proof {
            lemma_first_entry_resolves(hits_of(hits@), names, patterns, i as int, radix@, slots@[i as int]);
        }
        let file = match slots[i] {
            Some(e) => Some(entries[e].clone()),
            None => None,
        };
        files.push(file);
        i = i + 1;
    }
    files
}

} // verus!
