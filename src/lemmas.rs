//! What holds of every extraction: facts proved over the model of
//! `changelog`.

use vstd::prelude::*;

use crate::changelog::{
    close_section, extract, find_marker, is_bullet, is_continuation, is_sub_header,
    is_top_header, scan, skip_noise, sub_prefix, BlockModel, MalformedInput,
};

verus! {

proof fn lemma_scan_same(doc: Seq<Seq<char>>, i: int, acc: Seq<BlockModel>)
    requires
        0 <= i,
        acc.len() == 0 || (acc.len() == 1 && acc[0] is Header),
    ensures
        scan(doc, doc, i, skip_noise(doc, i), acc) == Ok::<Seq<BlockModel>, MalformedInput>(
            Seq::empty(),
        ),
    decreases doc.len() - i,
{
    if i >= doc.len() || is_top_header(doc[i]) {
        assert(close_section(acc) =~= Seq::<BlockModel>::empty());
    } else if doc[i].len() == 0 {
        lemma_scan_same(doc, i + 1, acc);
    } else if is_sub_header(doc[i]) {
        let h = BlockModel::Header(doc[i].skip(sub_prefix().len() as int));
        assert(close_section(acc) =~= Seq::<BlockModel>::empty());
        lemma_scan_same(doc, i + 1, close_section(acc).push(h));
    } else {
        lemma_scan_same(doc, i + 1, acc);
    }
}

/// Extracting a snapshot against itself finds nothing new.
pub proof fn lemma_extract_same(doc: Seq<Seq<char>>)
    requires
        find_marker(doc, 0) < doc.len(),
    ensures
        extract(doc, doc) == Ok::<Seq<BlockModel>, MalformedInput>(Seq::empty()),
{
    lemma_find_marker_bounds(doc, 0);
    lemma_scan_same(doc, find_marker(doc, 0) + 1, Seq::empty());
}

proof fn lemma_find_marker_bounds(doc: Seq<Seq<char>>, i: int)
    requires
        0 <= i,
    ensures
        i <= find_marker(doc, i) || find_marker(doc, i) == doc.len(),
        find_marker(doc, i) <= doc.len() || i > doc.len(),
        0 <= find_marker(doc, i),
    decreases doc.len() - i,
{
    if i < doc.len() {
        lemma_find_marker_bounds(doc, i + 1);
    }
}

/// No header is followed by another header.
pub open spec fn headers_apart(bs: Seq<BlockModel>) -> bool {
    forall|k: int| 0 <= k < bs.len() - 1 && #[trigger] bs[k] is Header ==> bs[k + 1] is Entry
}

/// Every header has an entry right after it: no section is empty.
pub open spec fn sections_filled(bs: Seq<BlockModel>) -> bool {
    forall|k: int| 0 <= k < bs.len() && #[trigger] bs[k] is Header ==> k + 1 < bs.len() && bs[k + 1] is Entry
}

proof fn lemma_close_section(acc: Seq<BlockModel>)
    requires
        headers_apart(acc),
    ensures
        sections_filled(close_section(acc)),
        headers_apart(close_section(acc)),
        close_section(acc).len() == 0 || close_section(acc).last() is Entry,
{
    let c = close_section(acc);
    if acc.len() > 0 && acc.last() is Header {
        if acc.len() >= 2 {
            assert(acc[acc.len() - 2] is Entry) by {
                if acc[acc.len() - 2] is Header {
                    assert(acc[acc.len() - 2 + 1] is Entry);
                }
            }
        }
        assert forall|k: int| 0 <= k < c.len() && #[trigger] c[k] is Header implies k + 1 < c.len()
            && c[k + 1] is Entry by {
            assert(acc[k] is Header);
        }
    } else {
        assert forall|k: int| 0 <= k < c.len() && #[trigger] c[k] is Header implies k + 1 < c.len()
            && c[k + 1] is Entry by {
            assert(acc[k] is Header);
        }
    }
}

proof fn lemma_scan_filled(
    old: Seq<Seq<char>>,
    new: Seq<Seq<char>>,
    i: int,
    j: int,
    acc: Seq<BlockModel>,
)
    requires
        headers_apart(acc),
    ensures
        scan(old, new, i, j, acc) matches Ok(r) ==> sections_filled(r),
    decreases new.len() - i,
{
    lemma_close_section(acc);
    if i >= new.len() || is_top_header(new[i]) {
    } else if new[i].len() == 0 {
        lemma_scan_filled(old, new, i + 1, j, acc);
    } else if is_sub_header(new[i]) {
        let c = close_section(acc);
        let next = c.push(BlockModel::Header(new[i].skip(sub_prefix().len() as int)));
        assert forall|k: int| 0 <= k < next.len() - 1 && #[trigger] next[k] is Header implies next[k
            + 1] is Entry by {
            assert(c[k] is Header);
            if k + 1 == c.len() {
                assert(c.last() is Entry);
            }
        }
        lemma_scan_filled(old, new, i + 1, j, next);
    } else if 0 <= j < old.len() && old[j] == new[i] {
        lemma_scan_filled(old, new, i + 1, skip_noise(old, j + 1), acc);
    } else if is_bullet(new[i]) {
        let next = acc.push(BlockModel::Entry(new[i]));
        assert forall|k: int| 0 <= k < next.len() - 1 && #[trigger] next[k] is Header implies next[k
            + 1] is Entry by {
            assert(acc[k] is Header);
        }
        lemma_scan_filled(old, new, i + 1, j, next);
    } else if acc.len() > 0 && acc.last() is Entry {
        let next = acc.drop_last().push(BlockModel::Entry(acc.last()->Entry_0 + new[i].skip(1)));
        assert forall|k: int| 0 <= k < next.len() - 1 && #[trigger] next[k] is Header implies next[k
            + 1] is Entry by {
            assert(acc[k] is Header);
        }
        lemma_scan_filled(old, new, i + 1, j, next);
    }
}

/// No extracted section is empty: every header is followed by an entry, so
/// no two headers stand together and the result does not end with one.
pub proof fn lemma_sections_filled(old: Seq<Seq<char>>, new: Seq<Seq<char>>)
    ensures
        extract(old, new) matches Ok(r) ==> sections_filled(r),
{
    let mo = find_marker(old, 0);
    let mn = find_marker(new, 0);
    if mo < old.len() && mn < new.len() {
        lemma_scan_filled(old, new, mn + 1, skip_noise(old, mo + 1), Seq::empty());
    }
}

/// The first index at or after `i` whose line ends the unreleased section,
/// or `doc.len()`.
pub open spec fn find_top(doc: Seq<Seq<char>>, i: int) -> int
    decreases doc.len() - i,
{
    if i >= doc.len() {
        doc.len() as int
    } else if is_top_header(doc[i]) {
        i
    } else {
        find_top(doc, i + 1)
    }
}

proof fn lemma_find_marker_agree(a: Seq<Seq<char>>, b: Seq<Seq<char>>, i: int, e: int)
    requires
        0 <= i,
        e < a.len(),
        e < b.len(),
        forall|k: int| 0 <= k <= e ==> a[k] == b[k],
        find_marker(a, i) < e,
    ensures
        find_marker(a, i) == find_marker(b, i),
    decreases a.len() - i,
{
    if i < a.len() && a[i] != crate::changelog::marker_line() {
        lemma_find_marker_bounds(a, i + 1);
        assert(a[i] == b[i]);
        lemma_find_marker_agree(a, b, i + 1, e);
    } else if i <= e {
        assert(a[i] == b[i]);
    }
}

proof fn lemma_find_top_facts(doc: Seq<Seq<char>>, i: int)
    requires
        0 <= i <= doc.len(),
    ensures
        i <= find_top(doc, i) <= doc.len(),
        forall|k: int| i <= k < find_top(doc, i) ==> !is_top_header(#[trigger] doc[k]),
        find_top(doc, i) < doc.len() ==> is_top_header(doc[find_top(doc, i)]),
    decreases doc.len() - i,
{
    if i < doc.len() {
        lemma_find_top_facts(doc, i + 1);
    }
}

proof fn lemma_scan_agree(
    old: Seq<Seq<char>>,
    a: Seq<Seq<char>>,
    b: Seq<Seq<char>>,
    i: int,
    j: int,
    acc: Seq<BlockModel>,
    e: int,
)
    requires
        0 <= i <= e,
        e < a.len(),
        e < b.len(),
        forall|k: int| 0 <= k <= e ==> a[k] == b[k],
        forall|k: int| i <= k < e ==> !is_top_header(#[trigger] a[k]),
        is_top_header(a[e]),
    ensures
        scan(old, a, i, j, acc) == scan(old, b, i, j, acc),
    decreases e - i,
{
    assert(a[i] == b[i]);
    if i < e {
        let l = a[i];
        if l.len() == 0 {
            lemma_scan_agree(old, a, b, i + 1, j, acc, e);
        } else if is_sub_header(l) {
            lemma_scan_agree(
                old,
                a,
                b,
                i + 1,
                j,
                close_section(acc).push(BlockModel::Header(l.skip(sub_prefix().len() as int))),
                e,
            );
        } else if 0 <= j < old.len() && old[j] == l {
            lemma_scan_agree(old, a, b, i + 1, skip_noise(old, j + 1), acc, e);
        } else if is_bullet(l) {
            lemma_scan_agree(old, a, b, i + 1, j, acc.push(BlockModel::Entry(l)), e);
        } else if acc.len() > 0 && acc.last() is Entry {
            lemma_scan_agree(
                old,
                a,
                b,
                i + 1,
                j,
                acc.drop_last().push(BlockModel::Entry(acc.last()->Entry_0 + l.skip(1))),
                e,
            );
        }
    }
}

/// Nothing at or after the first `## ` line that follows the unreleased
/// marker of `new` counts: a snapshot that agrees with `new` up to and
/// including that line, whatever it holds after it, gives the same result.
pub proof fn lemma_terminal_boundary(old: Seq<Seq<char>>, new: Seq<Seq<char>>, other: Seq<Seq<char>>)
    requires
        find_marker(new, 0) < new.len(),
        find_top(new, find_marker(new, 0) + 1) < new.len(),
        find_top(new, find_marker(new, 0) + 1) < other.len(),
        forall|k: int| 0 <= k <= find_top(new, find_marker(new, 0) + 1) ==> new[k] == other[k],
    ensures
        extract(old, new) == extract(old, other),
{
    let m = find_marker(new, 0);
    lemma_find_marker_bounds(new, 0);
    let e = find_top(new, m + 1);
    lemma_find_top_facts(new, m + 1);
    lemma_find_marker_agree(new, other, 0, e);
    let mo = find_marker(old, 0);
    if mo < old.len() {
        lemma_scan_agree(old, new, other, m + 1, skip_noise(old, mo + 1), Seq::empty(), e);
    }
}

/// The continuation lines `cs`, each without its first character, joined.
pub open spec fn joined_tails(cs: Seq<Seq<char>>) -> Seq<char>
    decreases cs.len(),
{
    if cs.len() == 0 {
        Seq::empty()
    } else {
        joined_tails(cs.drop_last()) + cs.last().skip(1)
    }
}

proof fn lemma_bullet_is_content(l: Seq<char>)
    requires
        is_bullet(l),
    ensures
        l.len() > 0,
        !is_top_header(l),
        !is_sub_header(l),
{
    reveal_strlit("- ");
    reveal_strlit("## ");
    reveal_strlit("### ");
    assert(l.take(2)[0] == '-');
    if is_top_header(l) {
        assert(l.take(3)[0] == '#');
    }
    if is_sub_header(l) {
        assert(l.take(4)[0] == '#');
    }
}

proof fn lemma_merge_from(
    old: Seq<Seq<char>>,
    new: Seq<Seq<char>>,
    start: int,
    j: int,
    b: Seq<char>,
    cs: Seq<Seq<char>>,
    t: int,
)
    requires
        0 <= start,
        0 <= t <= cs.len(),
        start + cs.len() <= new.len(),
        forall|k: int| 0 <= k < cs.len() ==> new[start + k] == cs[k] && is_continuation(cs[k]),
        start + cs.len() == new.len() || is_top_header(new[start + cs.len()]),
        !(0 <= j < old.len()) || !cs.contains(old[j]),
    ensures
        scan(old, new, start + t, j, seq![BlockModel::Entry(b + joined_tails(cs.take(t)))]) == Ok::<
            Seq<BlockModel>,
            MalformedInput,
        >(seq![BlockModel::Entry(b + joined_tails(cs))]),
    decreases cs.len() - t,
{
    let acc = seq![BlockModel::Entry(b + joined_tails(cs.take(t)))];
    if t == cs.len() {
        assert(cs.take(t) =~= cs);
        assert(close_section(acc) == acc);
    } else {
        let l = cs[t];
        assert(new[start + t] == l);
        if 0 <= j < old.len() && old[j] == l {
            assert(cs.contains(old[j]));
        }
        assert(cs.take(t + 1).drop_last() =~= cs.take(t));
        let x = joined_tails(cs.take(t));
        assert((b + x) + l.skip(1) =~= b + (x + l.skip(1)));
        assert(acc.drop_last().push(BlockModel::Entry(acc.last()->Entry_0 + l.skip(1))) =~= seq![
            BlockModel::Entry(b + joined_tails(cs.take(t + 1))),
        ]);
        lemma_merge_from(old, new, start, j, b, cs, t + 1);
    }
}

/// A bullet entry `b` right after the unreleased marker of `new`, followed by
/// the continuation lines `cs` up to the end of the section, comes out as the
/// only block: `b` with the tails of the continuations appended, where `old`
/// holds none of these lines.
pub proof fn lemma_first_entry_merge(
    old: Seq<Seq<char>>,
    new: Seq<Seq<char>>,
    b: Seq<char>,
    cs: Seq<Seq<char>>,
)
    requires
        find_marker(old, 0) < old.len(),
        find_marker(new, 0) + 2 + cs.len() <= new.len(),
        new[find_marker(new, 0) + 1] == b,
        is_bullet(b),
        forall|k: int|
            0 <= k < cs.len() ==> new[find_marker(new, 0) + 2 + k] == cs[k] && is_continuation(
                cs[k],
            ),
        find_marker(new, 0) + 2 + cs.len() == new.len() || is_top_header(
            new[find_marker(new, 0) + 2 + cs.len()],
        ),
        forall|k: int| 0 <= k < old.len() ==> old[k] != b && !cs.contains(old[k]),
    ensures
        extract(old, new) == Ok::<Seq<BlockModel>, MalformedInput>(
            seq![BlockModel::Entry(b + joined_tails(cs))],
        ),
{
    let m = find_marker(new, 0);
    lemma_find_marker_bounds(new, 0);
    let j = skip_noise(old, find_marker(old, 0) + 1);
    lemma_bullet_is_content(b);
    let start = m + 2;
    assert forall|k: int| 0 <= k < cs.len() implies new[start + k] == cs[k] && is_continuation(
        cs[k],
    ) by {
        assert(new[m + 2 + k] == cs[k]);
    }
    assert(cs.take(0) =~= Seq::<Seq<char>>::empty());
    assert(b + Seq::<char>::empty() =~= b);
    assert(Seq::<BlockModel>::empty().push(BlockModel::Entry(b)) =~= seq![
        BlockModel::Entry(b + joined_tails(cs.take(0))),
    ]);
    lemma_merge_from(old, new, start, j, b, cs, 0);
}

/// A line that closes a run of continuation lines: the end of the document,
/// a header, or another bullet that `old` does not hold.
pub open spec fn ends_run(old: Seq<Seq<char>>, new: Seq<Seq<char>>, i: int) -> bool {
    ||| i >= new.len()
    ||| is_top_header(new[i])
    ||| is_sub_header(new[i])
    ||| is_bullet(new[i]) && forall|q: int| 0 <= q < old.len() ==> old[q] != new[i]
}

proof fn lemma_entry_persists(
    old: Seq<Seq<char>>,
    new: Seq<Seq<char>>,
    i: int,
    j: int,
    acc: Seq<BlockModel>,
    p: int,
    e: Seq<char>,
)
    requires
        0 <= i,
        0 <= p < acc.len(),
        acc[p] == BlockModel::Entry(e),
        p < acc.len() - 1 || ends_run(old, new, i),
    ensures
        scan(old, new, i, j, acc) matches Ok(r) ==> p < r.len() && r[p] == BlockModel::Entry(e),
    decreases new.len() - i,
{
    let c = close_section(acc);
    assert(p < c.len() && c[p] == acc[p]);
    if i >= new.len() || is_top_header(new[i]) {
    } else if new[i].len() == 0 {
        reveal_strlit("- ");
        reveal_strlit("### ");
        assert(!is_bullet(new[i]) && !is_sub_header(new[i]));
        lemma_entry_persists(old, new, i + 1, j, acc, p, e);
    } else if is_sub_header(new[i]) {
        let next = c.push(BlockModel::Header(new[i].skip(sub_prefix().len() as int)));
        assert(next[p] == c[p]);
        lemma_entry_persists(old, new, i + 1, j, next, p, e);
    } else if 0 <= j < old.len() && old[j] == new[i] {
        assert(p < acc.len() - 1);
        lemma_entry_persists(old, new, i + 1, skip_noise(old, j + 1), acc, p, e);
    } else if is_bullet(new[i]) {
        let next = acc.push(BlockModel::Entry(new[i]));
        assert(next[p] == acc[p]);
        lemma_entry_persists(old, new, i + 1, j, next, p, e);
    } else if acc.len() > 0 && acc.last() is Entry {
        let next = acc.drop_last().push(BlockModel::Entry(acc.last()->Entry_0 + new[i].skip(1)));
        assert(next[p] == acc[p]);
        lemma_entry_persists(old, new, i + 1, j, next, p, e);
    }
}

proof fn lemma_merge_run(
    old: Seq<Seq<char>>,
    new: Seq<Seq<char>>,
    k: int,
    j: int,
    acc: Seq<BlockModel>,
    b: Seq<char>,
    cs: Seq<Seq<char>>,
    t: int,
)
    requires
        0 <= k,
        0 <= t <= cs.len(),
        k + 1 + cs.len() <= new.len(),
        forall|q: int| 0 <= q < cs.len() ==> new[k + 1 + q] == cs[q] && is_continuation(cs[q]),
        ends_run(old, new, k + 1 + cs.len()),
        forall|q: int| 0 <= q < old.len() ==> !cs.contains(old[q]),
        acc.len() > 0,
        acc.last() == BlockModel::Entry(b + joined_tails(cs.take(t))),
    ensures
        scan(old, new, k + 1 + t, j, acc) matches Ok(r) ==> r.contains(
            BlockModel::Entry(b + joined_tails(cs)),
        ),
    decreases cs.len() - t,
{
    let p = acc.len() - 1;
    if t == cs.len() {
        assert(cs.take(t) =~= cs);
        lemma_entry_persists(old, new, k + 1 + t, j, acc, p, b + joined_tails(cs));
        let res = scan(old, new, k + 1 + t, j, acc);
        if res is Ok {
            assert(res->Ok_0[p] == BlockModel::Entry(b + joined_tails(cs)));
        }
    } else {
        let l = cs[t];
        assert(new[k + 1 + t] == l);
        if 0 <= j < old.len() && old[j] == l {
            assert(cs.contains(old[j]));
        }
        assert(cs.take(t + 1).drop_last() =~= cs.take(t));
        let x = joined_tails(cs.take(t));
        assert((b + x) + l.skip(1) =~= b + (x + l.skip(1)));
        let next = acc.drop_last().push(BlockModel::Entry(acc.last()->Entry_0 + l.skip(1)));
        assert(next.last() == BlockModel::Entry(b + joined_tails(cs.take(t + 1))));
        lemma_merge_run(old, new, k, j, next, b, cs, t + 1);
    }
}

proof fn lemma_reach_bullet(
    old: Seq<Seq<char>>,
    new: Seq<Seq<char>>,
    i: int,
    j: int,
    acc: Seq<BlockModel>,
    k: int,
    b: Seq<char>,
    cs: Seq<Seq<char>>,
)
    requires
        0 <= i <= k,
        forall|q: int| i <= q < k ==> !is_top_header(#[trigger] new[q]),
        k + 1 + cs.len() <= new.len(),
        new[k] == b,
        is_bullet(b),
        forall|q: int| 0 <= q < cs.len() ==> new[k + 1 + q] == cs[q] && is_continuation(cs[q]),
        ends_run(old, new, k + 1 + cs.len()),
        forall|q: int| 0 <= q < old.len() ==> old[q] != b && !cs.contains(old[q]),
    ensures
        scan(old, new, i, j, acc) matches Ok(r) ==> r.contains(
            BlockModel::Entry(b + joined_tails(cs)),
        ),
    decreases k - i,
{
    if i == k {
        lemma_bullet_is_content(b);
        if 0 <= j < old.len() {
            assert(old[j] != b);
        }
        let next = acc.push(BlockModel::Entry(b));
        assert(cs.take(0) =~= Seq::<Seq<char>>::empty());
        assert(b + Seq::<char>::empty() =~= b);
        lemma_merge_run(old, new, k, j, next, b, cs, 0);
    } else {
        assert(!is_top_header(new[i]));
        if new[i].len() == 0 {
            lemma_reach_bullet(old, new, i + 1, j, acc, k, b, cs);
        } else if is_sub_header(new[i]) {
            lemma_reach_bullet(
                old,
                new,
                i + 1,
                j,
                close_section(acc).push(BlockModel::Header(new[i].skip(sub_prefix().len() as int))),
                k,
                b,
                cs,
            );
        } else if 0 <= j < old.len() && old[j] == new[i] {
            lemma_reach_bullet(old, new, i + 1, skip_noise(old, j + 1), acc, k, b, cs);
        } else if is_bullet(new[i]) {
            lemma_reach_bullet(old, new, i + 1, j, acc.push(BlockModel::Entry(new[i])), k, b, cs);
        } else if acc.len() > 0 && acc.last() is Entry {
            lemma_reach_bullet(
                old,
                new,
                i + 1,
                j,
                acc.drop_last().push(BlockModel::Entry(acc.last()->Entry_0 + new[i].skip(1))),
                k,
                b,
                cs,
            );
        }
    }
}

/// Anywhere in the unreleased section of `new`, a bullet entry `b` followed
/// by the continuation lines `cs`, up to the end of the document, a header or
/// another bullet that `old` does not hold, comes out as one entry: `b` with each continuation
/// appended without its first character, where `old` holds none of these
/// lines.
pub proof fn lemma_continuation_merge(
    old: Seq<Seq<char>>,
    new: Seq<Seq<char>>,
    k: int,
    b: Seq<char>,
    cs: Seq<Seq<char>>,
)
    requires
        in_section(new, find_marker(new, 0), k),
        new[k] == b,
        is_bullet(b),
        k + 1 + cs.len() <= new.len(),
        forall|q: int| 0 <= q < cs.len() ==> new[k + 1 + q] == cs[q] && is_continuation(cs[q]),
        ends_run(old, new, k + 1 + cs.len()),
        forall|q: int| 0 <= q < old.len() ==> old[q] != b && !cs.contains(old[q]),
    ensures
        extract(old, new) matches Ok(r) ==> r.contains(BlockModel::Entry(b + joined_tails(cs))),
{
    let mo = find_marker(old, 0);
    let mn = find_marker(new, 0);
    lemma_find_marker_bounds(new, 0);
    if mo < old.len() && mn < new.len() {
        lemma_reach_bullet(old, new, mn + 1, skip_noise(old, mo + 1), Seq::empty(), k, b, cs);
    }
}

/// Line `k` of `new` lies in the unreleased section that starts after the
/// marker at `m`: no line from there up to it ends the section.
pub open spec fn in_section(new: Seq<Seq<char>>, m: int, k: int) -> bool {
    &&& m < k < new.len()
    &&& forall|q: int| m < q <= k ==> !is_top_header(#[trigger] new[q])
}

/// Where the old cursor rests when the walk that starts after the marker at
/// `m`, with the cursor at `j0`, reaches line `k` of `new`: it moves on only
/// past a content line that equals the line under it.
pub open spec fn old_cursor(old: Seq<Seq<char>>, new: Seq<Seq<char>>, m: int, j0: int, k: int) -> int
    decreases k - m,
{
    if k <= m + 1 {
        j0
    } else {
        let j = old_cursor(old, new, m, j0, k - 1);
        let l = new[k - 1];
        if l.len() > 0 && !is_top_header(l) && !is_sub_header(l) && 0 <= j < old.len() && old[j]
            == l {
            skip_noise(old, j + 1)
        } else {
            j
        }
    }
}

/// Line `k` of `new` differs from the line of `old` that it is aligned with.
pub open spec fn unmatched(old: Seq<Seq<char>>, new: Seq<Seq<char>>, m: int, j0: int, k: int) -> bool {
    let j = old_cursor(old, new, m, j0, k);
    !(0 <= j < old.len() && old[j] == new[k])
}

/// The lines at `ks` of `new`, each without its first character, joined.
pub open spec fn tails_at(new: Seq<Seq<char>>, ks: Seq<int>) -> Seq<char>
    decreases ks.len(),
{
    if ks.len() == 0 {
        Seq::empty()
    } else {
        tails_at(new, ks.drop_last()) + new[ks.last()].skip(1)
    }
}

/// `ks` lists, in increasing order, continuation lines of the unreleased
/// section of `new` that come after line `k`.
pub open spec fn continuations_after(new: Seq<Seq<char>>, m: int, k: int, ks: Seq<int>) -> bool {
    &&& forall|q: int|
        0 <= q < ks.len() ==> k < #[trigger] ks[q] && in_section(new, m, ks[q]) && is_continuation(
            new[ks[q]],
        )
    &&& forall|a: int, b: int| 0 <= a < b < ks.len() ==> #[trigger] ks[a] < #[trigger] ks[b]
}

/// The entry text `t` is the bullet line `k` of the unreleased section of
/// `new`, which differs from the line of `old` it is aligned with, followed by
/// the tails of the continuation lines at `ks`.
pub open spec fn entry_from(
    old: Seq<Seq<char>>,
    new: Seq<Seq<char>>,
    m: int,
    j0: int,
    t: Seq<char>,
    k: int,
    ks: Seq<int>,
) -> bool {
    &&& in_section(new, m, k)
    &&& is_bullet(new[k])
    &&& unmatched(old, new, m, j0, k)
    &&& continuations_after(new, m, k, ks)
    &&& t == new[k] + tails_at(new, ks)
}

/// Block `b` comes from line `k` of the unreleased section of `new`: a header
/// from a sub-section header with that label; an entry from a bullet line that
/// differs from the line of `old` it is aligned with, followed by the tails of
/// continuation lines after it.
pub open spec fn comes_from_line(
    old: Seq<Seq<char>>,
    new: Seq<Seq<char>>,
    m: int,
    j0: int,
    b: BlockModel,
    k: int,
) -> bool {
    match b {
        BlockModel::Header(l) => in_section(new, m, k) && is_sub_header(new[k]) && new[k].skip(
            sub_prefix().len() as int,
        ) == l,
        BlockModel::Entry(t) => exists|ks: Seq<int>| #[trigger] entry_from(old, new, m, j0, t, k, ks),
    }
}

/// `w` witnesses where block `b` comes from, with every line it names before
/// line `i`.
pub open spec fn witnessed(
    old: Seq<Seq<char>>,
    new: Seq<Seq<char>>,
    m: int,
    j0: int,
    i: int,
    b: BlockModel,
    w: (int, Seq<int>),
) -> bool {
    &&& w.0 < i
    &&& forall|q: int| 0 <= q < w.1.len() ==> #[trigger] w.1[q] < i
    &&& match b {
        BlockModel::Header(l) => in_section(new, m, w.0) && is_sub_header(new[w.0]) && new[w.0].skip(
            sub_prefix().len() as int,
        ) == l,
        BlockModel::Entry(t) => entry_from(old, new, m, j0, t, w.0, w.1),
    }
}

proof fn lemma_witness_gives_line(
    old: Seq<Seq<char>>,
    new: Seq<Seq<char>>,
    m: int,
    j0: int,
    i: int,
    b: BlockModel,
    w: (int, Seq<int>),
)
    requires
        witnessed(old, new, m, j0, i, b, w),
    ensures
        comes_from_line(old, new, m, j0, b, w.0),
{
    if let BlockModel::Entry(t) = b {
        assert(entry_from(old, new, m, j0, t, w.0, w.1));
    }
}

proof fn lemma_scan_origin(
    old: Seq<Seq<char>>,
    new: Seq<Seq<char>>,
    m: int,
    j0: int,
    i: int,
    j: int,
    acc: Seq<BlockModel>,
    ws: Seq<(int, Seq<int>)>,
)
    requires
        0 <= m < i,
        j == old_cursor(old, new, m, j0, i),
        forall|q: int| m < q < i && q < new.len() ==> !is_top_header(#[trigger] new[q]),
        ws.len() == acc.len(),
        forall|q: int| 0 <= q < acc.len() ==> witnessed(old, new, m, j0, i, #[trigger] acc[q], ws[q]),
        forall|a: int, b: int| 0 <= a < b < ws.len() ==> #[trigger] ws[a].0 < #[trigger] ws[b].0,
    ensures
        scan(old, new, i, j, acc) matches Ok(r) ==> in_order_from(old, new, m, j0, r),
    decreases new.len() - i,
{
    let c = close_section(acc);
    let wc = if acc.len() > 0 && acc.last() is Header { ws.drop_last() } else { ws };
    assert forall|q: int| 0 <= q < c.len() implies witnessed(old, new, m, j0, i + 1, #[trigger] c[q], wc[q]) by {
        assert(c[q] == acc[q] && wc[q] == ws[q]);
        assert(witnessed(old, new, m, j0, i, acc[q], ws[q]));
    }
    assert forall|a: int, b: int| 0 <= a < b < wc.len() implies #[trigger] wc[a].0 < #[trigger] wc[b].0 by {
        assert(wc[a] == ws[a] && wc[b] == ws[b]);
    }
    if i >= new.len() || is_top_header(new[i]) {
        let os = wc.map_values(|w: (int, Seq<int>)| w.0);
        assert forall|q: int| 0 <= q < c.len() implies comes_from_line(old, new, m, j0, #[trigger] c[q], os[q]) by {
            lemma_witness_gives_line(old, new, m, j0, i + 1, c[q], wc[q]);
        }
        assert(lines_in_order(os));
    } else {
        assert(in_section(new, m, i));
        assert forall|q: int| 0 <= q < acc.len() implies witnessed(old, new, m, j0, i + 1, #[trigger] acc[q], ws[q]) by {
            assert(witnessed(old, new, m, j0, i, acc[q], ws[q]));
        }
        if new[i].len() == 0 {
            lemma_scan_origin(old, new, m, j0, i + 1, j, acc, ws);
        } else if is_sub_header(new[i]) {
            let h = BlockModel::Header(new[i].skip(sub_prefix().len() as int));
            let next = c.push(h);
            let wn = wc.push((i, Seq::<int>::empty()));
            assert forall|a: int, b: int| 0 <= a < b < wn.len() implies #[trigger] wn[a].0 < #[trigger] wn[b].0 by {
                if b == wc.len() {
                    assert(witnessed(old, new, m, j0, i + 1, c[a], wc[a]));
                    assert(wc[a].0 < i) by {
                        assert(c[a] == acc[a] && wc[a] == ws[a]);
                        assert(witnessed(old, new, m, j0, i, acc[a], ws[a]));
                    }
                } else {
                    assert(wn[a] == wc[a] && wn[b] == wc[b]);
                }
            }
            assert forall|q: int| 0 <= q < next.len() implies witnessed(old, new, m, j0, i + 1, #[trigger] next[q], wn[q]) by {
                if q < c.len() {
                    assert(next[q] == c[q] && wn[q] == wc[q]);
                }
            }
            lemma_scan_origin(old, new, m, j0, i + 1, j, next, wn);
        } else if 0 <= j < old.len() && old[j] == new[i] {
            lemma_scan_origin(old, new, m, j0, i + 1, skip_noise(old, j + 1), acc, ws);
        } else if is_bullet(new[i]) {
            let e = BlockModel::Entry(new[i]);
            let next = acc.push(e);
            let wn = ws.push((i, Seq::<int>::empty()));
            assert forall|a: int, b: int| 0 <= a < b < wn.len() implies #[trigger] wn[a].0 < #[trigger] wn[b].0 by {
                if b == ws.len() {
                    assert(witnessed(old, new, m, j0, i, acc[a], ws[a]));
                } else {
                    assert(wn[a] == ws[a] && wn[b] == ws[b]);
                }
            }
            assert(new[i] + tails_at(new, Seq::<int>::empty()) =~= new[i]);
            assert(witnessed(old, new, m, j0, i + 1, e, (i, Seq::<int>::empty())));
            assert forall|q: int| 0 <= q < next.len() implies witnessed(old, new, m, j0, i + 1, #[trigger] next[q], wn[q]) by {
                if q < acc.len() {
                    assert(next[q] == acc[q] && wn[q] == ws[q]);
                }
            }
            lemma_scan_origin(old, new, m, j0, i + 1, j, next, wn);
        } else if acc.len() > 0 && acc.last() is Entry {
            let t = acc.last()->Entry_0;
            let x = new[i].skip(1);
            let e = BlockModel::Entry(t + x);
            let next = acc.drop_last().push(e);
            let n = acc.len() - 1;
            let w = ws[n];
            assert(witnessed(old, new, m, j0, i, acc[n], w));
            let k = w.0;
            let ks = w.1;
            let ks2 = ks.push(i);
            assert(ks2.drop_last() =~= ks);
            assert(tails_at(new, ks2) == tails_at(new, ks) + x);
            assert(t + x =~= new[k] + tails_at(new, ks2));
            assert(continuations_after(new, m, k, ks2)) by {
                assert forall|a: int, b: int| 0 <= a < b < ks2.len() implies #[trigger] ks2[a] < #[trigger] ks2[b] by {
                    if b == ks.len() {
                        assert(ks[a] < i);
                    } else {
                        assert(ks[a] < ks[b]);
                    }
                }
                assert forall|q: int| 0 <= q < ks2.len() implies k < #[trigger] ks2[q] && in_section(new, m, ks2[q])
                    && is_continuation(new[ks2[q]]) by {
                    if q < ks.len() {
                        assert(ks2[q] == ks[q]);
                    }
                }
            }
            let wn = ws.drop_last().push((k, ks2));
            assert forall|a: int, b: int| 0 <= a < b < wn.len() implies #[trigger] wn[a].0 < #[trigger] wn[b].0 by {
                assert(wn[a].0 == ws[a].0 && wn[b].0 == ws[b].0);
            }
            assert(witnessed(old, new, m, j0, i + 1, e, (k, ks2)));
            assert forall|q: int| 0 <= q < next.len() implies witnessed(old, new, m, j0, i + 1, #[trigger] next[q], wn[q]) by {
                if q < n {
                    assert(next[q] == acc[q] && wn[q] == ws[q]);
                }
            }
            lemma_scan_origin(old, new, m, j0, i + 1, j, next, wn);
        }
    }
}

/// Strictly increasing line numbers.
pub open spec fn lines_in_order(os: Seq<int>) -> bool {
    forall|a: int, b: int| 0 <= a < b < os.len() ==> #[trigger] os[a] < #[trigger] os[b]
}

/// Each block of `r` comes from a line of the unreleased section of `new`,
/// and those lines stand in `new` in the order of the blocks.
pub open spec fn in_order_from(
    old: Seq<Seq<char>>,
    new: Seq<Seq<char>>,
    m: int,
    j0: int,
    r: Seq<BlockModel>,
) -> bool {
    exists|os: Seq<int>|
        os.len() == r.len() && lines_in_order(os) && forall|q: int|
            0 <= q < r.len() ==> #[trigger] comes_from_line(old, new, m, j0, r[q], os[q])
}

/// Everything extracted is new, and in the order of `new`: each header comes
/// from a sub-section header line of the unreleased section of `new`; each
/// entry is a bullet line there that the old snapshot, at the point the walk
/// had reached in it, did not hold, followed by the tails of continuation
/// lines after it, in order. Nothing comes from `old`.
pub proof fn lemma_blocks_come_from_new(old: Seq<Seq<char>>, new: Seq<Seq<char>>)
    ensures
        extract(old, new) matches Ok(r) ==> in_order_from(
            old,
            new,
            find_marker(new, 0),
            skip_noise(old, find_marker(old, 0) + 1),
            r,
        ),
{
    let mo = find_marker(old, 0);
    let mn = find_marker(new, 0);
    lemma_find_marker_bounds(new, 0);
    if mo < old.len() && mn < new.len() {
        let j0 = skip_noise(old, mo + 1);
        lemma_scan_origin(old, new, mn, j0, mn + 1, j0, Seq::empty(), Seq::empty());
    }
}

} // verus!
