//! Directory scanning: the patterns of the cells are evaluated on every
//! entry of a listing, and the radixes that enough cells confirm are listed
//! in order.

use crate::extract::CellPattern;
use crate::matcher::{capture_group, captured_prefix, compile, compiled, text_of};
use crate::order::{
    compare_text, lemma_precedes_transitive, lemma_sorted_lists_equal, precedes,
    strictly_sorted, Rank,
};
use regex::Regex;
use vstd::prelude::*;

verus! {

/// One match: the pattern of cell `cell` matched entry `entry` of the
/// listing and captured `radix`.
#[derive(Debug, Clone, PartialEq)]
pub struct Hit {
    pub entry: usize,
    pub cell: usize,
    pub radix: String,
}

/// Mathematical model of a [`Hit`].
pub struct HitModel {
    pub entry: nat,
    pub cell: nat,
    pub radix: Seq<char>,
}

impl View for Hit {
    type V = HitModel;

    open spec fn view(&self) -> HitModel {
        HitModel { entry: self.entry as nat, cell: self.cell as nat, radix: self.radix@ }
    }
}

/// The models of a sequence of hits.
pub open spec fn hits_of(hits: Seq<Hit>) -> Seq<HitModel> {
    Seq::new(hits.len(), |i: int| hits[i]@)
}

/// The strings, as sequences of characters.
pub open spec fn texts_of(strings: Seq<String>) -> Seq<Seq<char>> {
    Seq::new(strings.len(), |i: int| strings[i]@)
}

/// The patterns of the cells, as sequences of characters.
pub open spec fn patterns_of(cells: Seq<CellPattern>) -> Seq<Seq<char>> {
    Seq::new(cells.len(), |i: int| cells[i].regex_str@)
}

/// The place `(e, i)` of the table of entries and cells comes, row by row,
/// before the place `(entry, cell)`.
pub open spec fn place_before(e: int, i: int, entry: int, cell: int) -> bool {
    e < entry || (e == entry && i < cell)
}

/// Hit `h` tells the truth: at its place the pattern captures its radix.
pub open spec fn hit_holds(
    hits: Seq<HitModel>,
    entries: Seq<Seq<char>>,
    patterns: Seq<Seq<char>>,
    h: int,
) -> bool {
    &&& hits[h].entry < entries.len()
    &&& hits[h].cell < patterns.len()
    &&& captured_prefix(patterns[hits[h].cell as int], entries[hits[h].entry as int]) == Some(
        hits[h].radix,
    )
}

/// Some hit stands for the place `(e, i)`.
pub open spec fn place_recorded(hits: Seq<HitModel>, e: int, i: int) -> bool {
    exists|h: int| 0 <= h < hits.len() && #[trigger] hits[h].entry == e && hits[h].cell == i
}

/// The hits record the places, before `(entry, cell)`, at which a pattern
/// captures something: each hit holds, they stand row by row in the order
/// of the table, and no such place is left out.
pub open spec fn records_before(
    hits: Seq<HitModel>,
    entries: Seq<Seq<char>>,
    patterns: Seq<Seq<char>>,
    entry: int,
    cell: int,
) -> bool {
    &&& forall|h: int|
        0 <= h < hits.len() ==> #[trigger] hit_holds(hits, entries, patterns, h) && place_before(
            hits[h].entry as int,
            hits[h].cell as int,
            entry,
            cell,
        )
    &&& forall|a: int, b: int|
        0 <= a < b < hits.len() ==> place_before(
            (#[trigger] hits[a]).entry as int,
            hits[a].cell as int,
            (#[trigger] hits[b]).entry as int,
            hits[b].cell as int,
        )
    &&& forall|e: int, i: int|
        0 <= e < entries.len() && 0 <= i < patterns.len() && place_before(e, i, entry, cell)
            && (#[trigger] captured_prefix(patterns[i], entries[e])) is Some ==> place_recorded(
            hits,
            e,
            i,
        )
}

/// The hits record every place of the table at which a pattern captures
/// something.
pub open spec fn records(
    hits: Seq<HitModel>,
    entries: Seq<Seq<char>>,
    patterns: Seq<Seq<char>>,
) -> bool {
    records_before(hits, entries, patterns, entries.len() as int, 0)
}

/// Some hit of cell `cell` captured `radix`.
pub open spec fn cell_supports(hits: Seq<HitModel>, cell: nat, radix: Seq<char>) -> bool {
    exists|h: int|
        0 <= h < hits.len() && (#[trigger] hits[h]).cell == cell && hits[h].radix == radix
}

/// The cells whose hits captured `radix`.
pub open spec fn supporting_cells(hits: Seq<HitModel>, radix: Seq<char>) -> Set<nat> {
    Set::new(|cell: nat| cell_supports(hits, cell, radix))
}

/// How many different cells it takes to keep a radix: two, or all of them
/// where there are fewer.
pub open spec fn threshold(cells: nat) -> nat {
    if cells < 2 {
        cells
    } else {
        2
    }
}

/// `radix` was captured, and the number of different cells whose hits
/// captured it reaches the threshold.
pub open spec fn corroborated(hits: Seq<HitModel>, cells: nat, radix: Seq<char>) -> bool {
    let count = supporting_cells(hits, radix).len();
    count >= 1 && count >= threshold(cells)
}

/// Some hit captured `radix`.
pub open spec fn found(hits: Seq<HitModel>, radix: Seq<char>) -> bool {
    exists|h: int| 0 <= h < hits.len() && (#[trigger] hits[h]).radix == radix
}

/// Two hits of different cells captured `radix`.
pub open spec fn found_twice(hits: Seq<HitModel>, radix: Seq<char>) -> bool {
    exists|a: int, b: int|
        0 <= a < hits.len() && 0 <= b < hits.len() && (#[trigger] hits[a]).radix == radix && (
        #[trigger] hits[b]).radix == radix && hits[a].cell != hits[b].cell
}

/// Hits that show `radix` to be corroborated: two of different cells, or
/// any one where there are fewer than two cells.
pub open spec fn witnessed(hits: Seq<HitModel>, cells: nat, radix: Seq<char>) -> bool {
    if cells >= 2 {
        found_twice(hits, radix)
    } else {
        found(hits, radix)
    }
}

/// A finite set has an element exactly if it counts at least one, and two
/// different elements exactly if it counts at least two.
pub proof fn lemma_count_by_elements(s: Set<nat>)
    requires
        s.finite(),
    ensures
        s.len() >= 1 <==> exists|a: nat| s.contains(a),
        s.len() >= 2 <==> exists|a: nat, b: nat| s.contains(a) && s.contains(b) && a != b,
{
    if s.len() >= 1 {
        assert(s.contains(s.choose()));
    }
    if s.len() >= 2 {
        let a = s.choose();
        let rest = s.remove(a);
        assert(rest.len() >= 1);
        let b = rest.choose();
        assert(rest.contains(b));
        assert(s.contains(a) && s.contains(b) && a != b);
    }
    if exists|a: nat, b: nat| s.contains(a) && s.contains(b) && a != b {
        let (a, b) = choose|a: nat, b: nat| s.contains(a) && s.contains(b) && a != b;
        assert(s.remove(a).contains(b));
        assert(s.remove(a).len() >= 1);
    }
}

/// Only finitely many cells support a radix.
pub proof fn lemma_supporting_cells_finite(hits: Seq<HitModel>, radix: Seq<char>)
    ensures
        supporting_cells(hits, radix).finite(),
    decreases hits.len(),
{
    let cells = supporting_cells(hits, radix);
    if hits.len() == 0 {
        assert(cells =~= Set::empty());
    } else {
        let front = hits.drop_last();
        let last = hits.last();
        lemma_supporting_cells_finite(front, radix);
        let fewer = supporting_cells(front, radix);
        assert forall|c: nat| cell_supports(front, c, radix) implies cell_supports(
            hits,
            c,
            radix,
        ) by {
            let h = choose|h: int|
                0 <= h < front.len() && (#[trigger] front[h]).cell == c && front[h].radix == radix;
            assert(hits[h] == front[h]);
        }
        assert forall|c: nat| cell_supports(hits, c, radix) implies cell_supports(front, c, radix)
            || (last.radix == radix && last.cell == c) by {
            let h = choose|h: int|
                0 <= h < hits.len() && (#[trigger] hits[h]).cell == c && hits[h].radix == radix;
            if h < front.len() {
                assert(front[h] == hits[h]);
            }
        }
        if last.radix == radix {
            assert(hits[hits.len() - 1] == last);
            assert(cell_supports(hits, last.cell, radix));
            assert(cells =~= fewer.insert(last.cell));
        } else {
            assert(cells =~= fewer);
        }
    }
}

/// A radix is corroborated exactly where hits witness it.
pub proof fn lemma_corroborated_by_witnesses(hits: Seq<HitModel>, cells: nat, radix: Seq<char>)
    ensures
        corroborated(hits, cells, radix) <==> witnessed(hits, cells, radix),
{
    let support = supporting_cells(hits, radix);
    lemma_supporting_cells_finite(hits, radix);
    lemma_count_by_elements(support);
    if found(hits, radix) {
        let h = choose|h: int| 0 <= h < hits.len() && (#[trigger] hits[h]).radix == radix;
        assert(cell_supports(hits, hits[h].cell, radix));
        assert(support.contains(hits[h].cell));
    }
    if found_twice(hits, radix) {
        let (a, b) = choose|a: int, b: int|
            0 <= a < hits.len() && 0 <= b < hits.len() && (#[trigger] hits[a]).radix == radix && (
            #[trigger] hits[b]).radix == radix && hits[a].cell != hits[b].cell;
        assert(cell_supports(hits, hits[a].cell, radix));
        assert(cell_supports(hits, hits[b].cell, radix));
        assert(support.contains(hits[a].cell) && support.contains(hits[b].cell));
        assert(found(hits, radix));
    }
    if support.len() >= 1 {
        let c = choose|c: nat| support.contains(c);
        let h = choose|h: int|
            0 <= h < hits.len() && (#[trigger] hits[h]).cell == c && hits[h].radix == radix;
        assert(found(hits, radix));
    }
    if support.len() >= 2 {
        let (c, d) = choose|c: nat, d: nat| support.contains(c) && support.contains(d) && c != d;
        let a = choose|h: int|
            0 <= h < hits.len() && (#[trigger] hits[h]).cell == c && hits[h].radix == radix;
        let b = choose|h: int|
            0 <= h < hits.len() && (#[trigger] hits[h]).cell == d && hits[h].radix == radix;
        assert(hits[a].radix == radix && hits[b].radix == radix && hits[a].cell != hits[b].cell);
        assert(found_twice(hits, radix));
    }
}

/// `list` is the radix list of the hits: the corroborated radixes, each
/// once, in lexicographic order.
pub open spec fn is_radix_list(list: Seq<Seq<char>>, hits: Seq<HitModel>, cells: nat) -> bool {
    &&& strictly_sorted(list)
    &&& forall|radix: Seq<char>| #[trigger]
        list.contains(radix) <==> corroborated(hits, cells, radix)
}

/// Where `item` stands, or would stand, in a sorted list.
fn position_of(list: &Vec<String>, item: &String) -> (r: (usize, bool))
    ensures
        r.0 <= list.len(),
        forall|j: int| 0 <= j < r.0 ==> precedes(#[trigger] list@[j]@, item@),
        r.1 ==> r.0 < list.len() && list@[r.0 as int]@ == item@,
        !r.1 ==> r.0 == list.len() || precedes(item@, list@[r.0 as int]@),
{
    let mut p: usize = 0;
    while p < list.len()
        invariant
            p <= list.len(),
            forall|j: int| 0 <= j < p ==> precedes(#[trigger] list@[j]@, item@),
        decreases list.len() - p,
    {
        match compare_text(list[p].as_str(), item.as_str()) {
            Rank::Before => {
                p = p + 1;
            },
            Rank::Same => {
                return (p, true);
            },
            Rank::After => {
                return (p, false);
            },
        }
    }
    (p, false)
}

/// Puts `item` at its place in a sorted list, unless the list holds it.
fn insert_sorted(list: &mut Vec<String>, item: String)
    requires
        strictly_sorted(texts_of(old(list)@)),
    ensures
        strictly_sorted(texts_of(final(list)@)),
        forall|t: Seq<char>| #[trigger]
            texts_of(final(list)@).contains(t) <==> texts_of(old(list)@).contains(t) || t
                == item@,
{
    let ghost before = texts_of(list@);
    let (p, present) = position_of(list, &item);
    if present {
        assert(before[p as int] == item@);
        return ;
    }
    let ghost text = item@;
    list.insert(p, item);
    proof {
        let after = texts_of(list@);
        assert(after =~= before.insert(p as int, text));
        assert forall|i: int, j: int| 0 <= i < j < after.len() implies precedes(
            after[i],
            after[j],
        ) by {
            if j < p {
                assert(after[i] == before[i] && after[j] == before[j]);
            } else if j == p {
                assert(after[i] == before[i]);
                assert(before[i] == old(list)@[i]@);
            } else if i < p {
                assert(after[i] == before[i] && after[j] == before[j - 1]);
            } else if i == p {
                assert(after[j] == before[j - 1]);
                if j - 1 > p {
                    assert(precedes(before[p as int], before[j - 1]));
                    lemma_precedes_transitive(text, before[p as int], before[j - 1]);
                }
            } else {
                assert(after[i] == before[i - 1] && after[j] == before[j - 1]);
            }
        }
        assert forall|t: Seq<char>| #[trigger]
            after.contains(t) <==> before.contains(t) || t == text by {
            if after.contains(t) {
                let i = choose|i: int| 0 <= i < after.len() && after[i] == t;
                if i < p {
                    assert(before[i] == t);
                } else if i > p {
                    assert(before[i - 1] == t);
                }
            }
            if before.contains(t) {
                let i = choose|i: int| 0 <= i < before.len() && before[i] == t;
                if i < p {
                    assert(after[i] == t);
                } else {
                    assert(after[i + 1] == t);
                }
            }
            if t == text {
                assert(after[p as int] == t);
            }
        }
    }
}

/// Whether hits of two different cells captured `radix`.
fn confirmed_twice(hits: &[Hit], radix: &String) -> (r: bool)
    ensures
        r == found_twice(hits_of(hits@), radix@),
{
    let ghost models = hits_of(hits@);
    let mut first: Option<usize> = None;
    let ghost mut seen: int = 0;
    let mut h: usize = 0;
    while h < hits.len()
        invariant
            h <= hits.len(),
            models == hits_of(hits@),
            first matches Some(c) ==> 0 <= seen < h && models[seen].radix == radix@
                && models[seen].cell == c,
            first is None ==> forall|j: int| 0 <= j < h ==> (#[trigger] models[j]).radix != radix@,
            first matches Some(c) ==> forall|j: int|
                0 <= j < h && (#[trigger] models[j]).radix == radix@ ==> models[j].cell == c,
        decreases hits.len() - h,
    {
        if hits[h].radix == *radix {
            assert(models[h as int].radix == radix@);
            match first {
                None => {
                    first = Some(hits[h].cell);
                    proof {
                        seen = h as int;
                    }
                },
                Some(c) => {
                    if hits[h].cell != c {
                        assert(models[seen].cell != models[h as int].cell);
                        return true;
                    }
                },
            }
        }
        h = h + 1;
    }
    false
}

/// The radixes that the hits corroborate, among `cells` cells: each once, in
/// lexicographic order. With two cells or more a radix is listed if hits of
/// two different cells captured it; with fewer, if any hit did.
pub fn corroborated_radixes(hits: &[Hit], cells: usize) -> (radixes: Vec<String>)
    ensures
        is_radix_list(texts_of(radixes@), hits_of(hits@), cells as nat),
{
    let ghost models = hits_of(hits@);
    let mut radixes: Vec<String> = Vec::new();
    let mut h: usize = 0;
    while h < hits.len()
        invariant
            h <= hits.len(),
            models == hits_of(hits@),
            strictly_sorted(texts_of(radixes@)),
            forall|t: Seq<char>| #[trigger]
                texts_of(radixes@).contains(t) ==> witnessed(models, cells as nat, t),
            forall|j: int|
                0 <= j < h && witnessed(models, cells as nat, (#[trigger] models[j]).radix)
                    ==> texts_of(radixes@).contains(models[j].radix),
        decreases hits.len() - h,
    {
        let ghost listed = texts_of(radixes@);
        assert(models[h as int].radix == hits@[h as int].radix@);
        if cells < 2 || confirmed_twice(hits, &hits[h].radix) {
            insert_sorted(&mut radixes, hits[h].radix.clone());
            assert(forall|t: Seq<char>| #[trigger]
                listed.contains(t) ==> texts_of(radixes@).contains(t));
        }
        h = h + 1;
    }
    proof {
        let list = texts_of(radixes@);
        assert forall|radix: Seq<char>| #[trigger]
            list.contains(radix) <==> corroborated(models, cells as nat, radix) by {
            lemma_corroborated_by_witnesses(models, cells as nat, radix);
        }
    }
    radixes
}

/// Some entry of the listing matches `pattern`, which captures `radix` in it.
pub open spec fn cell_finds(entries: Seq<Seq<char>>, pattern: Seq<char>, radix: Seq<char>) -> bool {
    exists|e: int|
        0 <= e < entries.len() && captured_prefix(pattern, #[trigger] entries[e]) == Some(radix)
}

/// The cells whose patterns find `radix` in the listing.
pub open spec fn confirming_cells(
    entries: Seq<Seq<char>>,
    patterns: Seq<Seq<char>>,
    radix: Seq<char>,
) -> Set<nat> {
    Set::new(|i: nat| i < patterns.len() && cell_finds(entries, patterns[i as int], radix))
}

/// The listing confirms `radix`: some cell finds it, and the number of
/// different cells that find it reaches the threshold.
pub open spec fn confirmed(
    entries: Seq<Seq<char>>,
    patterns: Seq<Seq<char>>,
    radix: Seq<char>,
) -> bool {
    let count = confirming_cells(entries, patterns, radix).len();
    count >= 1 && count >= threshold(patterns.len())
}

/// `list` is the result of scanning the listing with the patterns: the
/// confirmed radixes, each once, in lexicographic order.
pub open spec fn is_scan_result(
    list: Seq<Seq<char>>,
    entries: Seq<Seq<char>>,
    patterns: Seq<Seq<char>>,
) -> bool {
    &&& strictly_sorted(list)
    &&& forall|radix: Seq<char>| #[trigger]
        list.contains(radix) <==> confirmed(entries, patterns, radix)
}

/// Among hits that record a listing, the cells that support a radix are
/// the cells that find it in the listing; so the hits corroborate it
/// exactly where the listing confirms it.
pub proof fn lemma_hits_confirm(
    hits: Seq<HitModel>,
    entries: Seq<Seq<char>>,
    patterns: Seq<Seq<char>>,
    radix: Seq<char>,
)
    requires
        records(hits, entries, patterns),
    ensures
        supporting_cells(hits, radix) == confirming_cells(entries, patterns, radix),
        corroborated(hits, patterns.len(), radix) <==> confirmed(entries, patterns, radix),
{
    assert forall|c: nat| cell_supports(hits, c, radix) implies c < patterns.len() && cell_finds(
        entries,
        patterns[c as int],
        radix,
    ) by {
        let h = choose|h: int|
            0 <= h < hits.len() && (#[trigger] hits[h]).cell == c && hits[h].radix == radix;
        assert(hit_holds(hits, entries, patterns, h));
        assert(captured_prefix(patterns[c as int], entries[hits[h].entry as int]) == Some(radix));
    }
    assert forall|c: nat| c < patterns.len() && cell_finds(entries, patterns[c as int], radix)
        implies cell_supports(hits, c, radix) by {
        let i = c as int;
        let e = choose|e: int|
            0 <= e < entries.len() && captured_prefix(patterns[i], #[trigger] entries[e])
                == Some(radix);
        assert(place_before(e, i, entries.len() as int, 0));
        assert(place_recorded(hits, e, i));
        let h = choose|h: int|
            0 <= h < hits.len() && #[trigger] hits[h].entry == e && hits[h].cell == i;
        assert(hit_holds(hits, entries, patterns, h));
        assert(hits[h].cell == c && hits[h].radix == radix);
    }
    assert(supporting_cells(hits, radix) =~= confirming_cells(entries, patterns, radix));
}

/// Only finitely many cells confirm a radix: no more than there are cells.
pub proof fn lemma_confirming_cells_bounded(
    entries: Seq<Seq<char>>,
    patterns: Seq<Seq<char>>,
    radix: Seq<char>,
)
    ensures
        confirming_cells(entries, patterns, radix).finite(),
        confirming_cells(entries, patterns, radix).len() <= patterns.len(),
    decreases patterns.len(),
{
    let cells = confirming_cells(entries, patterns, radix);
    if patterns.len() == 0 {
        assert(cells =~= Set::empty());
    } else {
        let front = patterns.drop_last();
        let last = (patterns.len() - 1) as nat;
        lemma_confirming_cells_bounded(entries, front, radix);
        let fewer = confirming_cells(entries, front, radix);
        assert forall|i: nat| i < front.len() implies front[i as int] == patterns[i as int] by {}
        if cell_finds(entries, patterns[last as int], radix) {
            assert(cells =~= fewer.insert(last));
        } else {
            assert(cells =~= fewer);
        }
    }
}

/// Scanning is determined by what it is given: two results for the same
/// listing and the same patterns are the same list.
pub proof fn lemma_scan_result_unique(
    first: Seq<Seq<char>>,
    second: Seq<Seq<char>>,
    entries: Seq<Seq<char>>,
    patterns: Seq<Seq<char>>,
)
    requires
        is_scan_result(first, entries, patterns),
        is_scan_result(second, entries, patterns),
    ensures
        first == second,
{
    assert forall|t: Seq<char>| first.contains(t) <==> second.contains(t) by {
        assert(first.contains(t) <==> confirmed(entries, patterns, t));
        assert(second.contains(t) <==> confirmed(entries, patterns, t));
    }
    lemma_sorted_lists_equal(first, second);
}

/// With two cells or more, a radix that fewer than two cells find in the
/// listing is not in the result of the scan.
pub proof fn lemma_single_cell_filtered(
    list: Seq<Seq<char>>,
    entries: Seq<Seq<char>>,
    patterns: Seq<Seq<char>>,
    radix: Seq<char>,
)
    requires
        is_scan_result(list, entries, patterns),
        patterns.len() >= 2,
        confirming_cells(entries, patterns, radix).len() < 2,
    ensures
        !list.contains(radix),
{
    assert(list.contains(radix) <==> confirmed(entries, patterns, radix));
}

/// With one cell, every radix that the cell finds in the listing is in the
/// result of the scan.
pub proof fn lemma_single_pattern_keeps_all(
    list: Seq<Seq<char>>,
    entries: Seq<Seq<char>>,
    patterns: Seq<Seq<char>>,
    radix: Seq<char>,
)
    requires
        is_scan_result(list, entries, patterns),
        patterns.len() == 1,
        cell_finds(entries, patterns[0], radix),
    ensures
        list.contains(radix),
{
    let cells = confirming_cells(entries, patterns, radix);
    lemma_confirming_cells_bounded(entries, patterns, radix);
    assert(cells.contains(0nat));
    assert(list.contains(radix) <==> confirmed(entries, patterns, radix));
}

/// Compiles the pattern of each cell; `None` stands for a pattern that is
/// not valid.
fn compile_all(cell_patterns: &[CellPattern]) -> (matchers: Vec<Option<Regex>>)
    ensures
        matchers.len() == cell_patterns.len(),
        forall|i: int|
            0 <= i < matchers.len() ==> #[trigger] matchers@[i] == compiled(
                cell_patterns@[i].regex_str@,
            ),
{
    let mut matchers: Vec<Option<Regex>> = Vec::new();
    let mut i: usize = 0;
    while i < cell_patterns.len()
        invariant
            i <= cell_patterns.len(),
            matchers.len() == i,
            forall|j: int|
                0 <= j < i ==> #[trigger] matchers@[j] == compiled(cell_patterns@[j].regex_str@),
        decreases cell_patterns.len() - i,
    {
        matchers.push(compile(cell_patterns[i].regex_str.as_str()));
        i = i + 1;
    }
    matchers
}

/// Evaluates the pattern of every cell on every entry of the listing, and
/// collects the matches row by row. A pattern that is not valid matches
/// nothing.
pub fn capture_hits(entries: &[String], cell_patterns: &[CellPattern]) -> (hits: Vec<Hit>)
    ensures
        records(hits_of(hits@), texts_of(entries@), patterns_of(cell_patterns@)),
{
    let ghost names = texts_of(entries@);
    let ghost patterns = patterns_of(cell_patterns@);
    let matchers = compile_all(cell_patterns);
    let mut hits: Vec<Hit> = Vec::new();
    let mut e: usize = 0;
    while e < entries.len()
        invariant
            e <= entries.len(),
            names == texts_of(entries@),
            patterns == patterns_of(cell_patterns@),
            matchers.len() == cell_patterns.len(),
            forall|i: int|
                0 <= i < matchers.len() ==> #[trigger] matchers@[i] == compiled(
                    cell_patterns@[i].regex_str@,
                ),
            records_before(hits_of(hits@), names, patterns, e as int, 0),
        decreases entries.len() - e,
    {
        let mut i: usize = 0;
        while i < matchers.len()
            invariant
                e < entries.len(),
                i <= matchers.len(),
                names == texts_of(entries@),
                patterns == patterns_of(cell_patterns@),
                matchers.len() == cell_patterns.len(),
                forall|i: int|
                    0 <= i < matchers.len() ==> #[trigger] matchers@[i] == compiled(
                        cell_patterns@[i].regex_str@,
                    ),
                records_before(hits_of(hits@), names, patterns, e as int, i as int),
            decreases matchers.len() - i,
        {
            let ghost before = hits_of(hits@);
            let mut captured: Option<String> = None;
            match &matchers[i] {
                Some(re) => {
                    captured = capture_group(re, entries[e].as_str(), 1);
                },
                None => {},
            }
            assert(matchers@[i as int] == compiled(patterns[i as int]));
            assert(text_of(captured) == captured_prefix(patterns[i as int], names[e as int]));
            match captured {
                Some(radix) => {
                    hits.push(Hit { entry: e, cell: i, radix });
                    proof {
                        let after = hits_of(hits@);
                        assert(after.drop_last() =~= before);
                        lemma_records_push(before, after, names, patterns, e as int, i as int);
                    }
                },
                None => {
                    proof {
                        lemma_records_skip(before, names, patterns, e as int, i as int);
                    }
                },
            }
            i = i + 1;
        }
        proof {
            lemma_records_next_row(hits_of(hits@), names, patterns, e as int);
        }
        e = e + 1;
    }
    hits
}

/// Where the pattern captures nothing at the place `(e, i)`, the record of
/// the places before it is the record of the places up to it.
proof fn lemma_records_skip(
    hits: Seq<HitModel>,
    entries: Seq<Seq<char>>,
    patterns: Seq<Seq<char>>,
    e: int,
    i: int,
)
    requires
        0 <= e < entries.len(),
        0 <= i < patterns.len(),
        records_before(hits, entries, patterns, e, i),
        captured_prefix(patterns[i], entries[e]) is None,
    ensures
        records_before(hits, entries, patterns, e, i + 1),
{
    assert forall|h: int| 0 <= h < hits.len() implies #[trigger] hit_holds(
        hits,
        entries,
        patterns,
        h,
    ) && place_before(hits[h].entry as int, hits[h].cell as int, e, i + 1) by {
        assert(hit_holds(hits, entries, patterns, h));
    }
    assert forall|x: int, y: int|
        0 <= x < entries.len() && 0 <= y < patterns.len() && place_before(x, y, e, i + 1) && (
        #[trigger] captured_prefix(patterns[y], entries[x])) is Some implies place_recorded(
        hits,
        x,
        y,
    ) by {
        assert(place_before(x, y, e, i));
    }
}

/// The record of the places of the rows up to row `e` is the record of the
/// places before row `e + 1`.
proof fn lemma_records_next_row(
    hits: Seq<HitModel>,
    entries: Seq<Seq<char>>,
    patterns: Seq<Seq<char>>,
    e: int,
)
    requires
        0 <= e < entries.len(),
        records_before(hits, entries, patterns, e, patterns.len() as int),
    ensures
        records_before(hits, entries, patterns, e + 1, 0),
{
    assert forall|h: int| 0 <= h < hits.len() implies #[trigger] hit_holds(
        hits,
        entries,
        patterns,
        h,
    ) && place_before(hits[h].entry as int, hits[h].cell as int, e + 1, 0) by {
        assert(hit_holds(hits, entries, patterns, h));
    }
    assert forall|x: int, y: int|
        0 <= x < entries.len() && 0 <= y < patterns.len() && place_before(x, y, e + 1, 0) && (
        #[trigger] captured_prefix(patterns[y], entries[x])) is Some implies place_recorded(
        hits,
        x,
        y,
    ) by {
        assert(place_before(x, y, e, patterns.len() as int));
    }
}

/// A hit for the place `(e, i)`, added to the hits that record the places
/// before it, makes the record of the places up to it.
proof fn lemma_records_push(
    before: Seq<HitModel>,
    after: Seq<HitModel>,
    entries: Seq<Seq<char>>,
    patterns: Seq<Seq<char>>,
    e: int,
    i: int,
)
    requires
        0 <= e < entries.len(),
        0 <= i < patterns.len(),
        records_before(before, entries, patterns, e, i),
        after.len() == before.len() + 1,
        after.drop_last() == before,
        after.last().entry == e,
        after.last().cell == i,
        captured_prefix(patterns[i], entries[e]) == Some(after.last().radix),
    ensures
        records_before(after, entries, patterns, e, i + 1),
{
    let n = before.len() as int;
    assert forall|h: int| 0 <= h < after.len() implies #[trigger] hit_holds(
        after,
        entries,
        patterns,
        h,
    ) && place_before(after[h].entry as int, after[h].cell as int, e, i + 1) by {
        if h < n {
            assert(after[h] == before[h]);
            assert(hit_holds(before, entries, patterns, h));
        }
    }
    assert forall|a: int, b: int| 0 <= a < b < after.len() implies place_before(
        (#[trigger] after[a]).entry as int,
        after[a].cell as int,
        (#[trigger] after[b]).entry as int,
        after[b].cell as int,
    ) by {
        assert(after[a] == before[a]);
        assert(hit_holds(before, entries, patterns, a));
        if b < n {
            assert(after[b] == before[b]);
        }
    }
    assert forall|x: int, y: int|
        0 <= x < entries.len() && 0 <= y < patterns.len() && place_before(x, y, e, i + 1) && (
        #[trigger] captured_prefix(patterns[y], entries[x])) is Some implies place_recorded(
        after,
        x,
        y,
    ) by {
        if place_before(x, y, e, i) {
            assert(place_recorded(before, x, y));
            let h = choose|h: int|
                0 <= h < before.len() && #[trigger] before[h].entry == x && before[h].cell == y;
            assert(after[h] == before[h]);
        } else {
            assert(after[n].entry == x && after[n].cell == y);
        }
    }
}

/// Lists the radixes of a directory listing: every text that the patterns
/// of two different cells capture in entries of the listing, or, where
/// there is one cell only, that its pattern captures. Each radix comes
/// once, in lexicographic order. A pattern that is not valid is passed
/// over; an empty listing gives an empty list.
pub fn scan_radixes(entries: &[String], cell_patterns: &[CellPattern]) -> (radixes: Vec<String>)
    ensures
        is_scan_result(texts_of(radixes@), texts_of(entries@), patterns_of(cell_patterns@)),
{
    let hits = capture_hits(entries, cell_patterns);
    let radixes = corroborated_radixes(hits.as_slice(), cell_patterns.len());
    proof {
        let list = texts_of(radixes@);
        let names = texts_of(entries@);
        let patterns = patterns_of(cell_patterns@);
        assert forall|radix: Seq<char>| #[trigger]
            list.contains(radix) <==> confirmed(names, patterns, radix) by {
            lemma_hits_confirm(hits_of(hits@), names, patterns, radix);
        }
    }
    radixes
}

} // verus!
