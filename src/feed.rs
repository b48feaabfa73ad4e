//! The feed extractor: entries of a newest-first list that are newer than the
//! head of the previous snapshot, and the list read out of an HTML index.

use vstd::prelude::*;

use crate::changelog::MalformedInput;
use crate::text::{chars_of, lines_of, push_all, split_lines, string_from_chars, strings_view};

verus! {

/// What scraper finds in `html` for a CSS selector: `None` where the selector
/// does not parse, else the value of `attribute` on each matching element, in
/// the order scraper's `select` yields them (`None` for an element without
/// it).
pub uninterp spec fn selected_attributes(
    html: Seq<char>,
    selector: Seq<char>,
    attribute: Seq<char>,
) -> Option<Seq<Option<Seq<char>>>>;

/// The views of a sequence of optional strings.
pub open spec fn options_view(v: Seq<Option<String>>) -> Seq<Option<Seq<char>>> {
    v.map_values(
        |o: Option<String>|
            match o {
                Some(t) => Some(t@),
                None => None,
            },
    )
}

/// Relies on scraper's `Selector::parse`, `Html::parse_document`,
/// `Html::select` and `Element::attr`: a deterministic query of the parsed
/// document, which fails only where the selector does not parse.
#[verifier::external_body]
fn select_attribute(html: &str, selector: &str, attribute: &str) -> (r: Option<Vec<Option<String>>>)
    ensures
        r matches Some(v) ==> selected_attributes(html@, selector@, attribute@) == Some(options_view(v@)),
        r is None ==> selected_attributes(html@, selector@, attribute@) is None,
{
    let sel = scraper::Selector::parse(selector).ok()?;
    let doc = scraper::Html::parse_document(html);
    Some(doc.select(&sel).map(|e| e.value().attr(attribute).map(|a| a.to_string())).collect())
}

/// The values that are present, in order.
pub open spec fn present(v: Seq<Option<Seq<char>>>) -> Seq<Seq<char>>
    decreases v.len(),
{
    if v.len() == 0 {
        Seq::empty()
    } else {
        match v.last() {
            Some(t) => present(v.drop_last()).push(t),
            None => present(v.drop_last()),
        }
    }
}

/// Keeps the values that are present, in order.
pub fn present_values(v: &Vec<Option<String>>) -> (r: Vec<String>)
    ensures
        strings_view(r@) == present(options_view(v@)),
{
    let mut r: Vec<String> = Vec::new();
    let mut k: usize = 0;
    while k < v.len()
        invariant
            k <= v.len(),
            strings_view(r@) == present(options_view(v@).take(k as int)),
        decreases v.len() - k,
    {
        let ghost before = r@;
        assert(options_view(v@).take(k as int + 1).drop_last() =~= options_view(v@).take(k as int));
        if let Some(t) = &v[k] {
            r.push(t.clone());
            assert(strings_view(r@) =~= strings_view(before).push(t@));
        }
        k = k + 1;
    }
    assert(options_view(v@).take(v.len() as int) =~= options_view(v@));
    r
}

/// The link targets of the post headers of a blog index page, in page order;
/// `None` only where the query itself cannot be run.
pub fn blog_links(html: &str) -> (r: Option<Vec<String>>)
    ensures
        r matches Some(v) ==> selected_attributes(html@, ".header-link"@, "href"@) matches Some(
            s,
        ) && strings_view(v@) == present(s),
        r is None ==> selected_attributes(html@, ".header-link"@, "href"@) is None,
{
    match select_attribute(html, ".header-link", "href") {
        Some(v) => Some(present_values(&v)),
        None => None,
    }
}

/// Each entry followed by a newline, all joined.
pub open spec fn terminated(entries: Seq<Seq<char>>) -> Seq<char>
    decreases entries.len(),
{
    if entries.len() == 0 {
        Seq::empty()
    } else {
        terminated(entries.drop_last()) + entries.last().push('\n')
    }
}

/// The stored form of a feed: one entry per line, each ended by a newline.
pub fn feed_text(entries: &Vec<String>) -> (r: String)
    ensures
        r@ == terminated(strings_view(entries@)),
{
    let mut out: Vec<char> = Vec::new();
    let mut k: usize = 0;
    while k < entries.len()
        invariant
            k <= entries.len(),
            out@ == terminated(strings_view(entries@).take(k as int)),
        decreases entries.len() - k,
    {
        let cs = chars_of(entries[k].as_str());
        push_all(&mut out, &cs);
        out.push('\n');
        assert(strings_view(entries@).take(k as int + 1).drop_last() =~= strings_view(entries@).take(k as int));
        assert(out@ =~= terminated(strings_view(entries@).take(k as int)) + cs@.push('\n'));
        k = k + 1;
    }
    assert(strings_view(entries@).take(entries.len() as int) =~= strings_view(entries@));
    string_from_chars(out.as_slice())
}

/// The entries of a stored feed: its lines, where a final newline ends the
/// last entry rather than starting another; none in an empty text.
pub open spec fn entries_of(s: Seq<char>) -> Seq<Seq<char>> {
    if s.len() == 0 {
        Seq::empty()
    } else if s.last() == '\n' {
        lines_of(s.drop_last())
    } else {
        lines_of(s)
    }
}

/// Reads the entries of a stored feed.
pub fn feed_entries(text: &str) -> (r: Vec<String>)
    ensures
        strings_view(r@) == entries_of(text@),
{
    let cs = chars_of(text);
    if cs.len() == 0 {
        let r: Vec<String> = Vec::new();
        assert(strings_view(r@) =~= Seq::<Seq<char>>::empty());
        return r;
    }
    let mut r = split_lines(text);
    if cs[cs.len() - 1] == '\n' {
        let ghost before = r@;
        r.pop();
        assert(strings_view(r@) =~= strings_view(before).drop_last());
    }
    r
}

proof fn lemma_lines_of_nonempty(s: Seq<char>)
    ensures
        lines_of(s).len() >= 1,
    decreases s.len(),
{
    if s.len() > 0 {
        lemma_lines_of_nonempty(s.drop_last());
    }
}

proof fn lemma_lines_of_extend(s: Seq<char>, x: Seq<char>)
    requires
        !x.contains('\n'),
    ensures
        lines_of(s + x) == lines_of(s).update(
            lines_of(s).len() - 1,
            lines_of(s).last() + x,
        ),
    decreases x.len(),
{
    lemma_lines_of_nonempty(s);
    let l = lines_of(s);
    if x.len() == 0 {
        assert(s + x =~= s);
        assert(l.last() + x =~= l.last());
        assert(l.update(l.len() - 1, l.last()) =~= l);
    } else {
        let y = x.drop_last();
        let c = x.last();
        assert(!y.contains('\n')) by {
            if y.contains('\n') {
                let q = choose|q: int| 0 <= q < y.len() && y[q] == '\n';
                assert(x[q] == '\n');
            }
        }
        assert(c != '\n') by {
            assert(x[x.len() - 1] == c);
        }
        lemma_lines_of_extend(s, y);
        assert((s + x).drop_last() =~= s + y);
        assert((s + x).last() == c);
        assert((l.last() + y).push(c) =~= l.last() + x);
        assert(l.update(l.len() - 1, l.last() + y).update(l.len() - 1, (l.last() + y).push(c))
            =~= l.update(l.len() - 1, l.last() + x));
    }
}

proof fn lemma_terminated_ends(entries: Seq<Seq<char>>)
    requires
        entries.len() > 0,
    ensures
        terminated(entries).len() > 0,
        terminated(entries).last() == '\n',
        terminated(entries).drop_last() =~= terminated(entries.drop_last()) + entries.last(),
{
    let t = terminated(entries);
    assert(t =~= terminated(entries.drop_last()) + entries.last() + seq!['\n']);
}

proof fn lemma_lines_of_terminated(entries: Seq<Seq<char>>)
    requires
        entries.len() > 0,
        forall|k: int| 0 <= k < entries.len() ==> !(#[trigger] entries[k]).contains('\n'),
    ensures
        lines_of(terminated(entries).drop_last()) == entries,
    decreases entries.len(),
{
    lemma_terminated_ends(entries);
    let pre = entries.drop_last();
    let x = entries.last();
    assert(!x.contains('\n')) by {
        assert(entries[entries.len() - 1] == x);
    }
    lemma_lines_of_extend(terminated(pre), x);
    if pre.len() == 0 {
        assert(terminated(pre) =~= Seq::<char>::empty());
        assert(Seq::<char>::empty() + x =~= x);
        assert(seq![Seq::<char>::empty()].update(0, Seq::<char>::empty() + x) =~= entries);
    } else {
        assert forall|k: int| 0 <= k < pre.len() implies !(#[trigger] pre[k]).contains('\n') by {
            assert(pre[k] == entries[k]);
        }
        lemma_lines_of_terminated(pre);
        lemma_terminated_ends(pre);
        let tp = terminated(pre);
        assert(tp.drop_last().push(tp.last()) =~= tp);
        assert(lines_of(tp) == lines_of(tp.drop_last()).push(Seq::empty()));
        assert(Seq::<char>::empty() + x =~= x);
        assert(pre.push(Seq::empty()).update(pre.len() as int, Seq::<char>::empty() + x) =~= entries);
    }
}

/// Reading back a stored feed gives the entries it was written from, where
/// no entry holds a newline.
pub proof fn lemma_feed_round_trip(entries: Seq<Seq<char>>)
    requires
        forall|k: int| 0 <= k < entries.len() ==> !(#[trigger] entries[k]).contains('\n'),
    ensures
        entries_of(terminated(entries)) == entries,
{
    if entries.len() == 0 {
        assert(terminated(entries) =~= Seq::<char>::empty());
        assert(entries =~= Seq::<Seq<char>>::empty());
    } else {
        lemma_terminated_ends(entries);
        lemma_lines_of_terminated(entries);
    }
}

/// The first index at or after `i` whose entry equals `stop`, or
/// `entries.len()`.
pub open spec fn index_of(entries: Seq<Seq<char>>, stop: Seq<char>, i: int) -> int
    decreases entries.len() - i,
{
    if i >= entries.len() {
        entries.len() as int
    } else if entries[i] == stop {
        i
    } else {
        index_of(entries, stop, i + 1)
    }
}

/// The entries of `new` before the first one equal to the head of `old`.
pub open spec fn new_entries_spec(old: Seq<Seq<char>>, new: Seq<Seq<char>>) -> Result<
    Seq<Seq<char>>,
    MalformedInput,
> {
    if old.len() == 0 {
        Err(MalformedInput::EmptyFeed)
    } else {
        Ok(new.take(index_of(new, old[0], 0)))
    }
}

/// The entries of `new_entries` that come before the first entry equal to
/// the head of `old_entries`; an empty `old_entries` is malformed.
pub fn extract_new(old_entries: &Vec<String>, new_entries: &Vec<String>) -> (r: Result<
    Vec<String>,
    MalformedInput,
>)
    ensures
        match r {
            Ok(v) => new_entries_spec(strings_view(old_entries@), strings_view(new_entries@))
                == Ok::<Seq<Seq<char>>, MalformedInput>(strings_view(v@)),
            Err(e) => new_entries_spec(strings_view(old_entries@), strings_view(new_entries@))
                == Err::<Seq<Seq<char>>, MalformedInput>(e),
        },
{
    if old_entries.len() == 0 {
        return Err(MalformedInput::EmptyFeed);
    }
    let ghost o = strings_view(old_entries@);
    let ghost n = strings_view(new_entries@);
    let stop = &old_entries[0];
    let mut r: Vec<String> = Vec::new();
    let mut k: usize = 0;
    while k < new_entries.len()
        invariant
            k <= new_entries.len(),
            o == strings_view(old_entries@),
            n == strings_view(new_entries@),
            o.len() > 0,
            stop@ == o[0],
            index_of(n, o[0], 0) == index_of(n, o[0], k as int),
            strings_view(r@) == n.take(k as int),
        decreases new_entries.len() - k,
    {
        if new_entries[k] == *stop {
            return Ok(r);
        }
        let ghost before = r@;
        r.push(new_entries[k].clone());
        assert(strings_view(r@) =~= strings_view(before).push(n[k as int]));
        assert(strings_view(r@) =~= n.take(k as int + 1));
        k = k + 1;
    }
    assert(n.take(k as int) =~= n);
    Ok(r)
}

} // verus!
