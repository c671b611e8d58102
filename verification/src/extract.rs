//! Pattern extraction: from the file names of one comparable set to the
//! radix they share and one cell pattern per name.

use crate::matcher::{anchored, anchored_pattern};
use crate::text::{
    chars_of, count_leading_separators, find_last_dot, find_last_separator, is_separator,
    last_dot, last_separator, leading_separators, lemma_last_dot, lemma_last_separator,
    lemma_leading_separators, lemma_trimmed_end, separator, substring, trim_end,
    trimmed_end_len,
};
use vstd::prelude::*;
use vstd::string::*;

verus! {

/// One variant within a comparable set.
#[derive(Debug, Clone, PartialEq)]
pub struct CellPattern {
    /// Name of the variant, for display.
    pub label: String,
    /// What follows the radix in this variant's file name.
    pub tail: String,
    /// The pattern that captures the radix of a file name of this variant.
    pub regex_str: String,
}

/// The result of analysing the file names of one comparable set.
#[derive(Debug, Clone, PartialEq)]
pub struct ExtractionResult {
    /// The part that the names share.
    pub radix: String,
    /// One cell per name, in the order of the names.
    pub cell_patterns: Vec<CellPattern>,
}

/// Mathematical model of a [`CellPattern`].
pub struct CellModel {
    pub label: Seq<char>,
    pub tail: Seq<char>,
    pub regex_str: Seq<char>,
}

/// Mathematical model of an [`ExtractionResult`].
pub struct ExtractionModel {
    pub radix: Seq<char>,
    pub cell_patterns: Seq<CellModel>,
}

impl View for CellPattern {
    type V = CellModel;

    open spec fn view(&self) -> CellModel {
        CellModel { label: self.label@, tail: self.tail@, regex_str: self.regex_str@ }
    }
}

/// The models of a sequence of cells.
pub open spec fn cells_of(cells: Seq<CellPattern>) -> Seq<CellModel> {
    Seq::new(cells.len(), |i: int| cells[i]@)
}

impl View for ExtractionResult {
    type V = ExtractionModel;

    open spec fn view(&self) -> ExtractionModel {
        ExtractionModel { radix: self.radix@, cell_patterns: cells_of(self.cell_patterns@) }
    }
}

/// The names, as sequences of characters.
pub open spec fn names_of(strings: Seq<&str>) -> Seq<Seq<char>> {
    Seq::new(strings.len(), |i: int| strings[i]@)
}

/// Every name has at least `k` characters and starts as the first name does.
pub open spec fn shares_prefix(names: Seq<Seq<char>>, k: nat) -> bool {
    forall|i: int|
        0 <= i < names.len() ==> k <= (#[trigger] names[i]).len() && names[i].take(k as int)
            == names[0].take(k as int)
}

/// `k` is the length of the longest prefix that all the names share.
pub open spec fn is_common_prefix_len(names: Seq<Seq<char>>, k: nat) -> bool {
    names.len() > 0 && shares_prefix(names, k) && !shares_prefix(names, k + 1)
}

/// The length of the longest prefix that all the names share.
pub open spec fn common_prefix_len(names: Seq<Seq<char>>) -> nat {
    choose|k: nat| is_common_prefix_len(names, k)
}

/// The names have at most one longest common prefix.
pub proof fn lemma_common_prefix_len_unique(names: Seq<Seq<char>>, k: nat)
    requires
        is_common_prefix_len(names, k),
    ensures
        common_prefix_len(names) == k,
{
    let c = common_prefix_len(names);
    assert(is_common_prefix_len(names, c));
    if c < k {
        assert forall|i: int| 0 <= i < names.len() implies c + 1 <= (#[trigger] names[i]).len()
            && names[i].take(c + 1 as int) == names[0].take(c + 1 as int) by {
            assert(names[i].take(k as int).take(c + 1 as int) == names[i].take(c + 1 as int));
            assert(names[0].take(k as int).take(c + 1 as int) == names[0].take(c + 1 as int));
        }
    } else if k < c {
        assert forall|i: int| 0 <= i < names.len() implies k + 1 <= (#[trigger] names[i]).len()
            && names[i].take(k + 1 as int) == names[0].take(k + 1 as int) by {
            assert(names[i].take(c as int).take(k + 1 as int) == names[i].take(k + 1 as int));
            assert(names[0].take(c as int).take(k + 1 as int) == names[0].take(k + 1 as int));
        }
    }
}

/// Names, if there are any, have a longest common prefix: from `k` shared
/// characters on, some length is the last that all of them share.
proof fn lemma_common_prefix_from(names: Seq<Seq<char>>, k: nat)
    requires
        names.len() > 0,
        shares_prefix(names, k),
    ensures
        is_common_prefix_len(names, common_prefix_len(names)),
    decreases names[0].len() - k,
{
    if shares_prefix(names, k + 1) {
        assert(k + 1 <= names[0].len());
        lemma_common_prefix_from(names, k + 1);
    } else {
        assert(is_common_prefix_len(names, k));
    }
}

/// Names, if there are any, have a longest common prefix, and no name is
/// shorter than it.
pub proof fn lemma_common_prefix_exists(names: Seq<Seq<char>>)
    requires
        names.len() > 0,
    ensures
        is_common_prefix_len(names, common_prefix_len(names)),
        forall|i: int| 0 <= i < names.len() ==> common_prefix_len(names) <= names[i].len(),
{
    assert forall|i: int| 0 <= i < names.len() implies (#[trigger] names[i]).take(0)
        == names[0].take(0) by {
        assert(names[i].take(0) =~= names[0].take(0));
    }
    lemma_common_prefix_from(names, 0);
}

/// The radix is cut out of the common prefix: it is no longer.
pub proof fn lemma_radix_within_prefix(names: Seq<Seq<char>>, k: nat)
    requires
        names.len() > 0,
        k <= names[0].len(),
    ensures
        radix_boundary(names, k) matches Some(n) ==> n <= k,
{
    let prefix = names[0].take(k as int);
    lemma_trimmed_end(prefix);
    lemma_last_separator(prefix);
}

/// Every name is the radix followed by the tail of its cell.
pub proof fn lemma_names_are_radix_and_tail(names: Seq<Seq<char>>, i: int)
    requires
        extraction_of(names) is Some,
        0 <= i < names.len(),
    ensures
        names[i] == extraction_of(names)->0.radix + extraction_of(names)->0.cell_patterns[i].tail,
{
    let k = common_prefix_len(names);
    lemma_common_prefix_exists(names);
    lemma_radix_within_prefix(names, k);
    let n = radix_boundary(names, k)->0 as int;
    assert(names[i].take(k as int).take(n) == names[i].take(n));
    assert(names[0].take(k as int).take(n) == names[0].take(n));
    assert(names[i] =~= names[i].take(n) + names[i].skip(n));
}

/// The label of a cell: its tail without the separators it starts with and
/// without its extension; a tail that is nothing but an extension is
/// labelled by the extension.
pub open spec fn label_of(tail: Seq<char>) -> Seq<char> {
    let stripped = tail.skip(leading_separators(tail) as int);
    match last_dot(stripped) {
        Some(p) => if p == 0 {
            stripped.skip(1)
        } else {
            stripped.take(p as int)
        },
        None => stripped,
    }
}

/// A label is empty only where the tail holds nothing but separators.
pub proof fn lemma_label_empty(tail: Seq<char>)
    ensures
        label_of(tail).len() == 0 <==> leading_separators(tail) == tail.len(),
{
    let stripped = tail.skip(leading_separators(tail) as int);
    lemma_leading_separators(tail);
    lemma_last_dot(stripped);
    if stripped.len() > 0 {
        assert(stripped[0] == tail[leading_separators(tail) as int]);
    }
}

/// The cell that belongs to a tail.
pub open spec fn cell_of(tail: Seq<char>) -> CellModel {
    CellModel { label: label_of(tail), tail: tail, regex_str: anchored(tail) }
}

/// No two cells have the same tail.
pub open spec fn tails_distinct(cells: Seq<CellModel>) -> bool {
    forall|i: int, j: int| 0 <= i < j < cells.len() ==> cells[i].tail != cells[j].tail
}

/// After `k` characters every name goes on, and not with a separator.
pub open spec fn continues_word(names: Seq<Seq<char>>, k: nat) -> bool {
    forall|i: int|
        0 <= i < names.len() ==> k < (#[trigger] names[i]).len() && !is_separator(
            names[i][k as int],
        )
}

/// Where the radix ends, given the length `k` of the common prefix.
///
/// A prefix that ends with separators loses them. A prefix that ends inside
/// a word, which every name continues, is cut before its last separator, and
/// there is no radix if it has none. Otherwise the prefix is the radix.
pub open spec fn radix_boundary(names: Seq<Seq<char>>, k: nat) -> Option<nat> {
    let prefix = names[0].take(k as int);
    if k == 0 {
        None
    } else if is_separator(prefix.last()) {
        Some(trimmed_end_len(prefix))
    } else if continues_word(names, k) {
        last_separator(prefix)
    } else {
        Some(k)
    }
}

/// The cells of the names, for a radix of `n` characters.
pub open spec fn cells_after(names: Seq<Seq<char>>, n: nat) -> Seq<CellModel> {
    Seq::new(names.len(), |i: int| cell_of(names[i].skip(n as int)))
}

/// What extraction gives for the names, and `None` where it fails: with
/// fewer than two names, without a common prefix, with an empty radix, or
/// with two equal tails.
pub open spec fn extraction_of(names: Seq<Seq<char>>) -> Option<ExtractionModel> {
    if names.len() < 2 {
        None
    } else {
        match radix_boundary(names, common_prefix_len(names)) {
            None => None,
            Some(n) => if n == 0 || !tails_distinct(cells_after(names, n)) {
                None
            } else {
                Some(
                    ExtractionModel {
                        radix: names[0].take(n as int),
                        cell_patterns: cells_after(names, n),
                    },
                )
            },
        }
    }
}

impl ExtractionResult {
    /// What holds of every result of an extraction: the radix is not empty,
    /// there are at least two cells, their tails differ, and label and
    /// pattern of each cell are those of its tail.
    pub open spec fn well_formed(&self) -> bool {
        &&& self.radix@.len() > 0
        &&& self.cell_patterns@.len() >= 2
        &&& tails_distinct(self@.cell_patterns)
        &&& forall|i: int|
            0 <= i < self.cell_patterns@.len() ==> (#[trigger] self.cell_patterns@[i])@ == cell_of(
                self.cell_patterns@[i].tail@,
            )
    }
}

/// How many leading characters `a` and `b` share, looking at no more than
/// `limit` of them.
fn shared_len(a: &Vec<char>, b: &Vec<char>, limit: usize) -> (m: usize)
    requires
        limit <= a.len(),
    ensures
        m <= limit,
        m <= b.len(),
        a@.take(m as int) == b@.take(m as int),
        m == limit || m == b.len() || a[m as int] != b[m as int],
{
    let mut m: usize = 0;
    while m < limit && m < b.len() && a[m] == b[m]
        invariant
            m <= limit <= a.len(),
            m <= b.len(),
            a@.take(m as int) == b@.take(m as int),
        decreases limit - m,
    {
        assert(a@.take(m + 1) == a@.take(m as int).push(a[m as int]));
        assert(b@.take(m + 1) == b@.take(m as int).push(b[m as int]));
        m = m + 1;
    }
    m
}

/// The longest prefix that all the strings share, compared character by
/// character; empty where there is no string.
pub fn longest_common_prefix(strings: &[&str]) -> (r: String)
    ensures
        strings@.len() == 0 ==> r@.len() == 0,
        strings@.len() > 0 ==> is_common_prefix_len(names_of(strings@), r@.len()) && r@
            == strings@[0]@.take(r@.len() as int),
{
    if strings.len() == 0 {
        return String::new();
    }
    let ghost names = names_of(strings@);
    let first = chars_of(strings[0]);
    let mut len: usize = first.len();
    let mut i: usize = 1;
    let ghost mut witness: int = 0;
    assert(names[0].take(len as int) == names[0].take(len as int));
    while i < strings.len()
        invariant
            1 <= i <= strings.len(),
            names == names_of(strings@),
            first@ == names[0],
            len <= first.len(),
            forall|j: int|
                0 <= j < i ==> len <= (#[trigger] names[j]).len() && names[j].take(len as int)
                    == first@.take(len as int),
            len == first.len() || (0 <= witness < i && (len == names[witness].len()
                || names[witness][len as int] != first[len as int])),
        decreases strings.len() - i,
    {
        let other = chars_of(strings[i]);
        let m = shared_len(&first, &other, len);
        assert(other@ == names[i as int]);
        proof {
            if m < len {
                witness = i as int;
            }
            assert forall|j: int| 0 <= j <= i implies m <= (#[trigger] names[j]).len()
                && names[j].take(m as int) == first@.take(m as int) by {
                if j < i {
                    assert(names[j].take(len as int).take(m as int) == names[j].take(m as int));
                    assert(first@.take(len as int).take(m as int) == first@.take(m as int));
                }
            }
        }
        len = m;
        i = i + 1;
    }
    proof {
        assert(shares_prefix(names, len as nat));
        if shares_prefix(names, (len + 1) as nat) {
            assert(len + 1 <= names[0].len());
            assert(names[witness].take(len + 1)[len as int] == names[0].take(len + 1)[len as int]);
        }
    }
    substring(strings[0], 0, len)
}

/// Derives the label of a cell from its tail.
pub fn derive_label(tail: &str) -> (r: String)
    ensures
        r@ == label_of(tail@),
{
    let chars = chars_of(tail);
    let start = count_leading_separators(&chars);
    let ghost stripped = tail@.skip(start as int);
    match find_last_dot(&chars, start) {
        Some(pos) => {
            if pos == 0 {
                assert(tail@.subrange(start + 1, chars.len() as int) == stripped.skip(1));
                substring(tail, start + 1, chars.len())
            } else {
                assert(tail@.subrange(start as int, start + pos) == stripped.take(pos as int));
                substring(tail, start, start + pos)
            }
        },
        None => {
            assert(tail@.subrange(start as int, chars.len() as int) == stripped);
            substring(tail, start, chars.len())
        },
    }
}

/// Whether every name goes on after `k` characters with a character that
/// is no separator.
fn all_continue_word(filenames: &[&str], k: usize) -> (r: bool)
    ensures
        r == continues_word(names_of(filenames@), k as nat),
{
    let ghost names = names_of(filenames@);
    let mut i: usize = 0;
    while i < filenames.len()
        invariant
            i <= filenames.len(),
            names == names_of(filenames@),
            forall|j: int|
                0 <= j < i ==> k < (#[trigger] names[j]).len() && !is_separator(names[j][k as int]),
        decreases filenames.len() - i,
    {
        let name = filenames[i];
        assert(name@ == names[i as int]);
        if name.unicode_len() <= k || separator(name.get_char(k)) {
            return false;
        }
        i = i + 1;
    }
    true
}

/// Whether no two of the cells have the same tail.
fn all_tails_distinct(cells: &Vec<CellPattern>) -> (r: bool)
    ensures
        r == tails_distinct(cells_of(cells@)),
{
    let ghost models = cells_of(cells@);
    let mut j: usize = 0;
    while j < cells.len()
        invariant
            j <= cells.len(),
            models == cells_of(cells@),
            forall|a: int, b: int| 0 <= a < b < j ==> models[a].tail != models[b].tail,
        decreases cells.len() - j,
    {
        let mut i: usize = 0;
        while i < j
            invariant
                i <= j < cells.len(),
                models == cells_of(cells@),
                forall|a: int| 0 <= a < i ==> models[a].tail != models[j as int].tail,
            decreases j - i,
        {
            if cells[i].tail == cells[j].tail {
                assert(models[i as int].tail == models[j as int].tail);
                return false;
            }
            i = i + 1;
        }
        j = j + 1;
    }
    true
}

/// Finds what the file names of one comparable set share: the radix, and
/// for each name, in order, the cell made of what follows the radix.
///
/// Returns `None` for fewer than two names, for names without a common
/// prefix, where the radix would be empty, and where two names would get
/// the same tail.
pub fn extract_patterns(filenames: &[&str]) -> (result: Option<ExtractionResult>)
    ensures
        match result {
            Some(r) => extraction_of(names_of(filenames@)) == Some(r@) && r.well_formed(),
            None => extraction_of(names_of(filenames@)) is None,
        },
        result matches Some(r) ==> tails_distinct(r@.cell_patterns),
{
    if filenames.len() < 2 {
        return None;
    }
    let ghost names = names_of(filenames@);
    let raw_prefix = longest_common_prefix(filenames);
    let prefix = chars_of(raw_prefix.as_str());
    let k: usize = prefix.len();
    proof {
        lemma_common_prefix_len_unique(names, k as nat);
        assert(prefix@.take(k as int) == prefix@);
        assert(prefix@ == names[0].take(k as int));
    }
    if k == 0 {
        return None;
    }
    let mut radix_len: usize = k;
    if separator(prefix[k - 1]) {
        radix_len = trim_end(&prefix, k);
    } else if all_continue_word(filenames, k) {
        match find_last_separator(&prefix, k) {
            Some(pos) => {
                radix_len = pos;
            },
            None => {
                return None;
            },
        }
    }
    assert(radix_boundary(names, k as nat) == Some(radix_len as nat));
    if radix_len == 0 {
        return None;
    }
    assert(names[0] == filenames@[0]@);
    let radix = substring(filenames[0], 0, radix_len);
    let mut cell_patterns: Vec<CellPattern> = Vec::new();
    let mut i: usize = 0;
    while i < filenames.len()
        invariant
            i <= filenames.len(),
            cell_patterns.len() == i,
            names == names_of(filenames@),
            radix_len <= k,
            shares_prefix(names, k as nat),
            forall|j: int|
                0 <= j < i ==> (#[trigger] cell_patterns@[j])@ == cell_of(
                    names[j].skip(radix_len as int),
                ),
        decreases filenames.len() - i,
    {
        let name = filenames[i];
        assert(name@ == names[i as int]);
        let tail = substring(name, radix_len, name.unicode_len());
        assert(tail@ == names[i as int].skip(radix_len as int));
        let label = derive_label(tail.as_str());
        let regex_str = anchored_pattern(tail.as_str());
        cell_patterns.push(CellPattern { label, tail, regex_str });
        i = i + 1;
    }
    assert(cells_of(cell_patterns@) == cells_after(names, radix_len as nat));
    if !all_tails_distinct(&cell_patterns) {
        return None;
    }
    Some(ExtractionResult { radix, cell_patterns })
}

} // verus!
