//! The change extractor: new content in the unreleased section of a
//! changelog, found by walking an old and a new snapshot side by side.

use vstd::prelude::*;

use crate::lemmas::{lemma_sections_filled, sections_filled};
use crate::text::{chars_of, has_prefix, lines_of, split_lines, starts_with, string_from_chars, strings_view};

verus! {

/// Why an input could not be processed.
#[derive(Debug, Clone, Copy, PartialEq, Eq, Structural)]
pub enum MalformedInput {
    /// A changelog snapshot has no `## [Unreleased]` line.
    MissingUnreleasedMarker,
    /// A continuation line came with no bullet entry before it to extend.
    OrphanContinuation,
    /// The previous feed snapshot holds no entry to use as a boundary.
    EmptyFeed,
}

/// One piece of new content.
#[derive(Debug, Clone, PartialEq, Eq)]
pub enum ChangeBlock {
    /// A sub-section header; holds its label (the text after `### `).
    Header(String),
    /// A bullet entry, with any continuation lines merged into it.
    Entry(String),
}

/// The mathematical value of a [`ChangeBlock`].
pub enum BlockModel {
    Header(Seq<char>),
    Entry(Seq<char>),
}

impl View for ChangeBlock {
    type V = BlockModel;

    open spec fn view(&self) -> BlockModel {
        match self {
            ChangeBlock::Header(l) => BlockModel::Header(l@),
            ChangeBlock::Entry(t) => BlockModel::Entry(t@),
        }
    }
}

/// The views of a sequence of blocks.
pub open spec fn blocks_view(v: Seq<ChangeBlock>) -> Seq<BlockModel> {
    v.map_values(|b: ChangeBlock| b@)
}

pub open spec fn marker_line() -> Seq<char> {
    "## [Unreleased]"@
}

pub open spec fn top_prefix() -> Seq<char> {
    "## "@
}

pub open spec fn sub_prefix() -> Seq<char> {
    "### "@
}

pub open spec fn bullet_prefix() -> Seq<char> {
    "- "@
}

/// A line that ends the unreleased section (`## ` and anything).
pub open spec fn is_top_header(l: Seq<char>) -> bool {
    has_prefix(l, top_prefix())
}

pub open spec fn is_sub_header(l: Seq<char>) -> bool {
    has_prefix(l, sub_prefix())
}

pub open spec fn is_bullet(l: Seq<char>) -> bool {
    has_prefix(l, bullet_prefix())
}

/// Lines that the old cursor steps over: blank lines and sub-section headers.
pub open spec fn is_noise(l: Seq<char>) -> bool {
    l.len() == 0 || is_sub_header(l)
}

/// A line that is no header, no blank and no bullet: it wraps onto the entry
/// before it.
pub open spec fn is_continuation(l: Seq<char>) -> bool {
    l.len() > 0 && !is_top_header(l) && !is_sub_header(l) && !is_bullet(l)
}

/// The first index at or after `i` that holds the unreleased marker, or
/// `doc.len()` if there is none.
pub open spec fn find_marker(doc: Seq<Seq<char>>, i: int) -> int
    decreases doc.len() - i,
{
    if i >= doc.len() {
        doc.len() as int
    } else if doc[i] == marker_line() {
        i
    } else {
        find_marker(doc, i + 1)
    }
}

/// The first index at or after `j` whose line is not noise, or `doc.len()`.
pub open spec fn skip_noise(doc: Seq<Seq<char>>, j: int) -> int
    decreases doc.len() - j,
{
    if j >= doc.len() || !is_noise(doc[j]) {
        j
    } else {
        skip_noise(doc, j + 1)
    }
}

/// Drops a trailing header that nothing was added under.
pub open spec fn close_section(acc: Seq<BlockModel>) -> Seq<BlockModel> {
    if acc.len() > 0 && acc.last() is Header {
        acc.drop_last()
    } else {
        acc
    }
}

/// The walk over `new` from line `i`, with the old cursor at `j` and the
/// blocks found so far in `acc`.
pub open spec fn scan(
    old: Seq<Seq<char>>,
    new: Seq<Seq<char>>,
    i: int,
    j: int,
    acc: Seq<BlockModel>,
) -> Result<Seq<BlockModel>, MalformedInput>
    decreases new.len() - i,
{
    if i >= new.len() || is_top_header(new[i]) {
        Ok(close_section(acc))
    } else if new[i].len() == 0 {
        scan(old, new, i + 1, j, acc)
    } else if is_sub_header(new[i]) {
        scan(
            old,
            new,
            i + 1,
            j,
            close_section(acc).push(BlockModel::Header(new[i].skip(sub_prefix().len() as int))),
        )
    } else if 0 <= j < old.len() && old[j] == new[i] {
        scan(old, new, i + 1, skip_noise(old, j + 1), acc)
    } else if is_bullet(new[i]) {
        scan(old, new, i + 1, j, acc.push(BlockModel::Entry(new[i])))
    } else if acc.len() > 0 && acc.last() is Entry {
        scan(
            old,
            new,
            i + 1,
            j,
            acc.drop_last().push(BlockModel::Entry(acc.last()->Entry_0 + new[i].skip(1))),
        )
    } else {
        Err(MalformedInput::OrphanContinuation)
    }
}

/// The blocks that `new` adds to the unreleased section of `old`.
pub open spec fn extract(old: Seq<Seq<char>>, new: Seq<Seq<char>>) -> Result<
    Seq<BlockModel>,
    MalformedInput,
> {
    let mo = find_marker(old, 0);
    let mn = find_marker(new, 0);
    if mo >= old.len() || mn >= new.len() {
        Err(MalformedInput::MissingUnreleasedMarker)
    } else {
        scan(old, new, mn + 1, skip_noise(old, mo + 1), Seq::empty())
    }
}

/// The view of an extraction result.
pub open spec fn result_view(r: Result<Vec<ChangeBlock>, MalformedInput>) -> Result<
    Seq<BlockModel>,
    MalformedInput,
> {
    match r {
        Ok(v) => Ok(blocks_view(v@)),
        Err(e) => Err(e),
    }
}

fn find_marker_index(doc: &Vec<String>) -> (r: usize)
    ensures
        r as int == find_marker(strings_view(doc@), 0),
{
    let marker = chars_of("## [Unreleased]");
    let ghost d = strings_view(doc@);
    let mut i: usize = 0;
    while i < doc.len()
        invariant
            i <= doc.len(),
            d == strings_view(doc@),
            marker@ == marker_line(),
            find_marker(d, 0) == find_marker(d, i as int),
        decreases doc.len() - i,
    {
        let line = chars_of(doc[i].as_str());
        if line.len() == marker.len() && starts_with(&line, &marker) {
            assert(line@ =~= marker@);
            return i;
        }
        i = i + 1;
    }
    i
}

fn skip_noise_from(doc: &Vec<String>, j: usize) -> (r: usize)
    requires
        j <= doc.len(),
    ensures
        r as int == skip_noise(strings_view(doc@), j as int),
        j <= r <= doc.len(),
{
    let sub = chars_of("### ");
    let ghost d = strings_view(doc@);
    let mut k: usize = j;
    while k < doc.len()
        invariant
            j <= k <= doc.len(),
            d == strings_view(doc@),
            sub@ == sub_prefix(),
            skip_noise(d, j as int) == skip_noise(d, k as int),
        decreases doc.len() - k,
    {
        let line = chars_of(doc[k].as_str());
        if !(line.len() == 0 || starts_with(&line, &sub)) {
            return k;
        }
        k = k + 1;
    }
    k
}

/// Removes a trailing header that nothing was added under.
fn drop_empty_section(blocks: &mut Vec<ChangeBlock>)
    ensures
        blocks_view(final(blocks)@) == close_section(blocks_view(old(blocks)@)),
{
    let n = blocks.len();
    if n > 0 {
        if let ChangeBlock::Header(_) = &blocks[n - 1] {
            let ghost before = blocks@;
            blocks.pop();
            assert(blocks_view(blocks@) =~= blocks_view(before).drop_last());
        }
    }
}

/// The content lines that `new` adds to the unreleased section of `old`,
/// both given line by line.
pub fn extract_changes(old: &Vec<String>, new: &Vec<String>) -> (r: Result<
    Vec<ChangeBlock>,
    MalformedInput,
>)
    ensures
        result_view(r) == extract(strings_view(old@), strings_view(new@)),
        r matches Ok(v) ==> sections_filled(blocks_view(v@)),
{
    let ghost o = strings_view(old@);
    let ghost n = strings_view(new@);
    proof {
        lemma_sections_filled(o, n);
    }
    let mo = find_marker_index(old);
    let mn = find_marker_index(new);
    if mo >= old.len() || mn >= new.len() {
        return Err(MalformedInput::MissingUnreleasedMarker);
    }
    let top = chars_of("## ");
    let sub = chars_of("### ");
    let bullet = chars_of("- ");
    let mut j = skip_noise_from(old, mo + 1);
    let mut blocks: Vec<ChangeBlock> = Vec::new();
    let mut i: usize = mn + 1;
    assert(blocks_view(blocks@) =~= Seq::<BlockModel>::empty());
    while i < new.len()
        invariant
            i <= new.len(),
            j <= old.len(),
            o == strings_view(old@),
            n == strings_view(new@),
            top@ == top_prefix(),
            sub@ == sub_prefix(),
            bullet@ == bullet_prefix(),
            scan(o, n, i as int, j as int, blocks_view(blocks@)) == extract(o, n),
        decreases new.len() - i,
    {
        let line = chars_of(new[i].as_str());
        assert(line@ == n[i as int]);
        if starts_with(&line, &top) {
            drop_empty_section(&mut blocks);
            proof {
                lemma_sections_filled(o, n);
            }
            return Ok(blocks);
        } else if line.len() == 0 {
        } else if starts_with(&line, &sub) {
            drop_empty_section(&mut blocks);
            let label = string_from_chars(line.as_slice().split_at(sub.len()).1);
            let ghost before = blocks@;
            blocks.push(ChangeBlock::Header(label));
            assert(blocks_view(blocks@) =~= blocks_view(before).push(
                BlockModel::Header(n[i as int].skip(sub_prefix().len() as int)),
            ));
        } else if j < old.len() && old[j] == new[i] {
            assert(o[j as int] == n[i as int]);
            j = skip_noise_from(old, j + 1);
        } else if starts_with(&line, &bullet) {
            let ghost before = blocks@;
            blocks.push(ChangeBlock::Entry(new[i].clone()));
            assert(blocks_view(blocks@) =~= blocks_view(before).push(BlockModel::Entry(n[i as int])));
        } else {
            let ghost before = blocks@;
            match blocks.pop() {
                Some(ChangeBlock::Entry(t)) => {
                    let mut merged = chars_of(t.as_str());
                    let mut k: usize = 1;
                    while k < line.len()
                        invariant
                            1 <= k <= line.len(),
                            merged@ == t@ + line@.subrange(1, k as int),
                        decreases line.len() - k,
                    {
                        merged.push(line[k]);
                        assert(line@.subrange(1, k as int + 1) =~= line@.subrange(1, k as int).push(line@[k as int]));
                        k = k + 1;
                    }
                    assert(line@.subrange(1, line.len() as int) =~= line@.skip(1));
                    let text = string_from_chars(merged.as_slice());
                    blocks.push(ChangeBlock::Entry(text));
                    assert(blocks_view(blocks@) =~= blocks_view(before).drop_last().push(
                        BlockModel::Entry(t@ + n[i as int].skip(1)),
                    ));
                },
                _ => {
                    return Err(MalformedInput::OrphanContinuation);
                },
            }
        }
        i = i + 1;
    }
    drop_empty_section(&mut blocks);
    Ok(blocks)
}

/// The same extraction on two whole snapshots, each split into lines at
/// every newline character.
pub fn extract_changelog(old_text: &str, new_text: &str) -> (r: Result<
    Vec<ChangeBlock>,
    MalformedInput,
>)
    ensures
        result_view(r) == extract(lines_of(old_text@), lines_of(new_text@)),
        r matches Ok(v) ==> sections_filled(blocks_view(v@)),
{
    let old = split_lines(old_text);
    let new = split_lines(new_text);
    extract_changes(&old, &new)
}

} // verus!
