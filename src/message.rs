//! The message formatter: change blocks, and the posts of the feed, rendered
//! into the text of one notification.

use vstd::prelude::*;

use crate::changelog::{blocks_view, bullet_prefix, BlockModel, ChangeBlock};
use crate::text::{chars_of, push_all, string_from_chars, strings_view};

verus! {

/// The line that shows a block: a header as `header_prefix` and its label, an
/// entry as its text.
pub open spec fn rendered(header_prefix: Seq<char>, b: BlockModel) -> Seq<char> {
    match b {
        BlockModel::Header(l) => header_prefix + l,
        BlockModel::Entry(t) => t,
    }
}

/// The line that shows `block`.
pub fn render_block(header_prefix: &str, block: &ChangeBlock) -> (r: String)
    ensures
        r@ == rendered(header_prefix@, block@),
{
    match block {
        ChangeBlock::Header(l) => {
            let mut out = chars_of(header_prefix);
            let cs = chars_of(l.as_str());
            push_all(&mut out, &cs);
            string_from_chars(out.as_slice())
        },
        ChangeBlock::Entry(t) => t.clone(),
    }
}

/// Each block's line, each one preceded by a newline.
pub open spec fn block_lines(header_prefix: Seq<char>, blocks: Seq<BlockModel>) -> Seq<char>
    decreases blocks.len(),
{
    if blocks.len() == 0 {
        Seq::empty()
    } else {
        block_lines(header_prefix, blocks.drop_last()) + seq!['\n'] + rendered(
            header_prefix,
            blocks.last(),
        )
    }
}

/// The title, a blank line, then each block on a line of its own; just the
/// title where there are no blocks.
pub open spec fn message_text(title: Seq<char>, header_prefix: Seq<char>, blocks: Seq<BlockModel>) -> Seq<char> {
    if blocks.len() == 0 {
        title
    } else {
        title + seq!['\n'] + block_lines(header_prefix, blocks)
    }
}

/// The text of the notification: `title` and a blank line, then each block
/// on a line of its own; just `title` where there are no blocks.
pub fn format_message(title: &str, header_prefix: &str, blocks: &Vec<ChangeBlock>) -> (r: String)
    ensures
        r@ == message_text(title@, header_prefix@, blocks_view(blocks@)),
{
    let ghost bv = blocks_view(blocks@);
    let mut out = chars_of(title);
    if blocks.len() == 0 {
        return string_from_chars(out.as_slice());
    }
    out.push('\n');
    let ghost head = out@;
    assert(block_lines(header_prefix@, bv.take(0)) =~= Seq::<char>::empty());
    assert(out@ =~= head + block_lines(header_prefix@, bv.take(0)));
    let mut k: usize = 0;
    while k < blocks.len()
        invariant
            k <= blocks.len(),
            bv == blocks_view(blocks@),
            head == title@ + seq!['\n'],
            out@ == head + block_lines(header_prefix@, bv.take(k as int)),
        decreases blocks.len() - k,
    {
        let line = render_block(header_prefix, &blocks[k]);
        let cs = chars_of(line.as_str());
        let ghost before = out@;
        out.push('\n');
        push_all(&mut out, &cs);
        assert(bv.take(k as int + 1).drop_last() =~= bv.take(k as int));
        assert(out@ =~= before + seq!['\n'] + cs@);
        assert(out@ =~= head + block_lines(header_prefix@, bv.take(k as int + 1)));
        k = k + 1;
    }
    assert(bv.take(blocks.len() as int) =~= bv);
    string_from_chars(out.as_slice())
}

/// The blocks that announce new posts: a header with `label`, then one entry
/// per post, the post marked as a bullet; nothing where there are no posts.
pub open spec fn feed_section(label: Seq<char>, posts: Seq<Seq<char>>) -> Seq<BlockModel> {
    if posts.len() == 0 {
        Seq::empty()
    } else {
        seq![BlockModel::Header(label)] + posts.map_values(
            |p: Seq<char>| BlockModel::Entry(bullet_prefix() + p),
        )
    }
}

/// Appends to `blocks` the section that announces `posts`.
pub fn append_feed(blocks: &mut Vec<ChangeBlock>, label: &str, posts: &Vec<String>)
    ensures
        blocks_view(final(blocks)@) == blocks_view(old(blocks)@) + feed_section(
            label@,
            strings_view(posts@),
        ),
{
    if posts.len() == 0 {
        assert(blocks_view(blocks@) + feed_section(label@, strings_view(posts@)) =~= blocks_view(
            blocks@,
        ));
        return;
    }
    let ghost start = blocks_view(blocks@);
    let ghost ps = strings_view(posts@);
    let header = chars_of(label);
    blocks.push(ChangeBlock::Header(string_from_chars(header.as_slice())));
    let mut k: usize = 0;
    while k < posts.len()
        invariant
            k <= posts.len(),
            ps == strings_view(posts@),
            blocks_view(blocks@) == start + seq![BlockModel::Header(label@)] + ps.take(
                k as int,
            ).map_values(|p: Seq<char>| BlockModel::Entry(bullet_prefix() + p)),
        decreases posts.len() - k,
    {
        let ghost before = blocks_view(blocks@);
        let mut line = chars_of("- ");
        let cs = chars_of(posts[k].as_str());
        push_all(&mut line, &cs);
        let entry = ChangeBlock::Entry(string_from_chars(line.as_slice()));
        blocks.push(entry);
        assert(blocks_view(blocks@) =~= before.push(BlockModel::Entry(bullet_prefix() + ps[k as int])));
        assert(ps.take(k as int + 1).map_values(|p: Seq<char>| BlockModel::Entry(bullet_prefix() + p))
            =~= ps.take(k as int).map_values(|p: Seq<char>| BlockModel::Entry(bullet_prefix() + p)).push(
            BlockModel::Entry(bullet_prefix() + ps[k as int]),
        ));
        k = k + 1;
    }
    assert(ps.take(posts.len() as int) =~= ps);
    assert(blocks_view(blocks@) =~= start + feed_section(label@, ps));
}

} // verus!
