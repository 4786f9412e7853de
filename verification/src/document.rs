//! Splitting a Markdown document into blocks.

use vstd::prelude::*;
use std::time::{Duration, SystemTime};
use crate::ast::{nodes_view, BlockData, BlockKind, BlockType, DecoNode, InlineDecorationNode};
use crate::block_type::{derive_block_type, spec_derive_block_type, trim, trim_bounds};
use crate::markdown::{markdown_events, parse_markdown_to_decorations, spec_decorations};
use crate::text::{
    decimal, is_digit, lemma_decimal_reads_back, push_decimal, push_range, str_chars, string_from_chars,
};

verus! {

/// Puts `x` in front of the first piece.
pub open spec fn add_front(x: Seq<char>, pieces: Seq<Seq<char>>) -> Seq<Seq<char>> {
    pieces.update(0, x + pieces[0])
}

/// The pieces of `s` between occurrences of `"\n\n"`, matched from the left
/// without overlap (what `str::split("\n\n")` yields).
pub open spec fn split_pieces(s: Seq<char>) -> Seq<Seq<char>>
    decreases s.len(),
{
    if s.len() >= 2 && s[0] == '\n' && s[1] == '\n' {
        seq![Seq::<char>::empty()] + split_pieces(s.skip(2))
    } else if s.len() == 0 {
        seq![Seq::<char>::empty()]
    } else {
        add_front(seq![s[0]], split_pieces(s.skip(1)))
    }
}

pub proof fn lemma_split_pieces_nonempty(s: Seq<char>)
    ensures
        split_pieces(s).len() >= 1,
    decreases s.len(),
{
    if s.len() >= 2 && s[0] == '\n' && s[1] == '\n' {
        lemma_split_pieces_nonempty(s.skip(2));
    } else if s.len() > 0 {
        lemma_split_pieces_nonempty(s.skip(1));
    }
}

/// The pieces that hold more than whitespace, in order.
pub open spec fn nonblank(pieces: Seq<Seq<char>>) -> Seq<Seq<char>>
    decreases pieces.len(),
{
    if pieces.len() == 0 {
        pieces
    } else if trim(pieces.last()).len() > 0 {
        nonblank(pieces.drop_last()).push(pieces.last())
    } else {
        nonblank(pieces.drop_last())
    }
}

/// The raw Markdown of each block of a document.
pub open spec fn document_pieces(markdown: Seq<char>) -> Seq<Seq<char>> {
    nonblank(split_pieces(markdown))
}

/// A block id: a timestamp and the block's 1-based position, in decimal,
/// joined by `-`.
pub open spec fn block_id(stamp: nat, n: nat) -> Seq<char> {
    decimal(stamp) + seq!['-'] + decimal(n)
}

/// Math, Mermaid and Typst blocks carry no inline tree.
pub open spec fn is_opaque_block(k: BlockKind) -> bool {
    k is MathBlock || k is Mermaid || k is Typst
}

/// A block built from `raw`: its derived type, its inline tree (empty for
/// opaque blocks) and the raw text itself.
pub open spec fn block_content_matches(b: BlockData, raw: Seq<char>) -> bool {
    &&& b.block_type@ == spec_derive_block_type(raw)
    &&& nodes_view(b.ast_content@) == (if is_opaque_block(spec_derive_block_type(raw)) {
        Seq::<DecoNode>::empty()
    } else {
        spec_decorations(markdown_events(raw))
    })
    &&& b.plain_text@ == raw
}

/// `blocks` and `order` are what splitting `markdown` into blocks gives: one
/// block per non-blank piece, in order, each built from its piece, with an id
/// made of some timestamp and its 1-based position; the order lists the ids.
pub open spec fn parsed_document(markdown: Seq<char>, blocks: Seq<BlockData>, order: Seq<String>) -> bool {
    &&& blocks.len() == document_pieces(markdown).len()
    &&& order.len() == blocks.len()
    &&& forall|i: int|
        0 <= i < blocks.len() ==> {
            &&& block_content_matches(#[trigger] blocks[i], document_pieces(markdown)[i])
            &&& exists|t: nat| blocks[i].id@ == #[trigger] block_id(t, (i + 1) as nat)
            &&& order[i]@ == blocks[i].id@
        }
}

/// Two block ids are equal only for the same position.
pub proof fn lemma_block_id_position(t1: nat, n1: nat, t2: nat, n2: nat)
    requires
        block_id(t1, n1) == block_id(t2, n2),
    ensures
        n1 == n2,
{
    let a = decimal(t1);
    let b = decimal(t2);
    let s = block_id(t1, n1);
    lemma_decimal_reads_back(t1);
    lemma_decimal_reads_back(t2);
    lemma_decimal_reads_back(n1);
    lemma_decimal_reads_back(n2);
    if a.len() < b.len() {
        assert(s[a.len() as int] == '-');
        assert(s[a.len() as int] == b[a.len() as int]);
        assert(is_digit(b[a.len() as int]));
    } else if b.len() < a.len() {
        assert(block_id(t2, n2)[b.len() as int] == '-');
        assert(s[b.len() as int] == a[b.len() as int]);
        assert(is_digit(a[b.len() as int]));
    }
    assert(decimal(n1) =~= s.skip(a.len() as int + 1));
    assert(decimal(n2) =~= block_id(t2, n2).skip(b.len() as int + 1));
}

/// The blocks of a parsed document have pairwise distinct ids.
pub proof fn law_parsed_ids_distinct(markdown: Seq<char>, blocks: Seq<BlockData>, order: Seq<String>)
    requires
        parsed_document(markdown, blocks, order),
    ensures
        forall|i: int, j: int|
            0 <= i < blocks.len() && 0 <= j < blocks.len() && i != j ==> blocks[i].id@ != blocks[j].id@,
{
    assert forall|i: int, j: int|
        0 <= i < blocks.len() && 0 <= j < blocks.len() && i != j implies blocks[i].id@
        != blocks[j].id@ by {
        let ti = choose|t: nat| blocks[i].id@ == #[trigger] block_id(t, (i + 1) as nat);
        let tj = choose|t: nat| blocks[j].id@ == #[trigger] block_id(t, (j + 1) as nat);
        if blocks[i].id@ == blocks[j].id@ {
            lemma_block_id_position(ti, (i + 1) as nat, tj, (j + 1) as nat);
        }
    }
}

/// What tree a block of a document carries: a Math, Mermaid or Typst block
/// none; every other block, code blocks, headings, lists and paragraphs
/// included, the decoration tree of its raw text.
pub proof fn law_block_tree(b: BlockData, raw: Seq<char>)
    requires
        block_content_matches(b, raw),
    ensures
        ({
            let k = spec_derive_block_type(raw);
            &&& (k is CodeBlock || k is Heading || k is List || k is Paragraph || k is BlockQuote)
                ==> nodes_view(b.ast_content@) == spec_decorations(markdown_events(raw))
            &&& (k is MathBlock || k is Mermaid || k is Typst) ==> nodes_view(b.ast_content@)
                == Seq::<DecoNode>::empty()
        }),
{
}

/// The character sequences held by a vector of character vectors.
pub open spec fn vecs_view(v: Seq<Vec<char>>) -> Seq<Seq<char>> {
    Seq::new(v.len(), |i: int| v[i]@)
}

/// Splits text at `"\n\n"`.
pub fn split_at_blank_lines(s: &Vec<char>) -> (pieces: Vec<Vec<char>>)
    ensures
        vecs_view(pieces@) == split_pieces(s@),
{
    let mut done: Vec<Vec<char>> = Vec::new();
    let mut cur: Vec<char> = Vec::new();
    let mut j: usize = 0;
    proof {
        lemma_split_pieces_nonempty(s@);
        assert(s@.skip(0) =~= s@);
        assert(add_front(Seq::empty(), split_pieces(s@)) =~= split_pieces(s@));
    }
    while j < s.len()
        invariant
            j <= s.len(),
            split_pieces(s@) == vecs_view(done@) + add_front(cur@, split_pieces(s@.skip(j as int))),
        decreases s.len() - j,
    {
        let ghost rest = s@.skip(j as int);
        proof {
            lemma_split_pieces_nonempty(rest);
        }
        if j + 1 < s.len() && s[j] == '\n' && s[j + 1] == '\n' {
            proof {
                assert(rest.skip(2) =~= s@.skip(j + 2));
                lemma_split_pieces_nonempty(rest.skip(2));
            }
            let ghost old_done = vecs_view(done@);
            let ghost old_cur = cur@;
            done.push(cur);
            cur = Vec::new();
            j = j + 2;
            proof {
                assert(vecs_view(done@) =~= old_done.push(old_cur));
                let r = split_pieces(s@.skip(j as int));
                assert(add_front(old_cur, seq![Seq::<char>::empty()] + r) =~= seq![old_cur] + r);
                assert(add_front(cur@, r) =~= r);
                assert(old_done + (seq![old_cur] + r) =~= old_done.push(old_cur) + r);
            }
        } else {
            proof {
                assert(rest.skip(1) =~= s@.skip(j + 1));
                lemma_split_pieces_nonempty(rest.skip(1));
                let r = split_pieces(s@.skip(j + 1));
                assert(cur@ + (seq![s@[j as int]] + r[0]) =~= cur@.push(s@[j as int]) + r[0]);
                assert(add_front(cur@, add_front(seq![s@[j as int]], r)) =~= add_front(
                    cur@.push(s@[j as int]),
                    r,
                ));
            }
            cur.push(s[j]);
            j = j + 1;
        }
    }
    proof {
        assert(s@.skip(j as int) =~= Seq::<char>::empty());
        assert(add_front(cur@, seq![Seq::<char>::empty()]) =~= seq![cur@]);
    }
    let ghost old_done = vecs_view(done@);
    let ghost last = cur@;
    done.push(cur);
    assert(vecs_view(done@) =~= old_done + seq![last]);
    done
}

/// A point in time of the system clock.
#[verifier::external_type_specification]
#[verifier::external_body]
pub struct ExSystemTime(std::time::SystemTime);

/// Trusted: `std::time::SystemTime::now()`, the current time of the system
/// clock. Nothing is claimed of it.
#[verifier::external_body]
fn system_now() -> SystemTime {
    SystemTime::now()
}

/// Trusted: `SystemTime::duration_since(UNIX_EPOCH)`, the time since the
/// Unix epoch, or `None` when `t` is before it. Nothing is claimed of the
/// duration.
#[verifier::external_body]
fn since_epoch(t: &SystemTime) -> Option<Duration> {
    match t.duration_since(std::time::UNIX_EPOCH) {
        Ok(d) => Some(d),
        Err(_) => None,
    }
}

/// Trusted: `Duration::as_millis`, the whole milliseconds in `d`. Nothing is
/// claimed of the number, as nothing is known of the duration.
#[verifier::external_body]
fn whole_millis(d: &Duration) -> u128 {
    d.as_millis()
}

/// Milliseconds since the Unix epoch by the system clock, 0 when the clock is
/// set before the epoch.
fn now_millis() -> u128 {
    match since_epoch(&system_now()) {
        Some(d) => whole_millis(&d),
        None => 0,
    }
}

/// Builds the `n`-th block (1-based) of a document from its raw text, with an
/// id made from `stamp` and `n`.
pub fn build_block(raw: &str, stamp: u128, n: u128) -> (b: BlockData)
    ensures
        block_content_matches(b, raw@),
        b.id@ == block_id(stamp as nat, n as nat),
{
    let mut id: Vec<char> = Vec::new();
    push_decimal(&mut id, stamp);
    id.push('-');
    push_decimal(&mut id, n);
    assert(id@ =~= block_id(stamp as nat, n as nat));
    let block_type = derive_block_type(raw);
    let ast_content: Vec<InlineDecorationNode> = match block_type {
        BlockType::Mermaid | BlockType::MathBlock | BlockType::Typst => Vec::new(),
        _ => parse_markdown_to_decorations(raw),
    };
    proof {
        reveal_with_fuel(nodes_view, 1);
    }
    BlockData {
        id: string_from_chars(&id),
        block_type,
        ast_content,
        plain_text: String::from_str(raw),
    }
}

/// Splits a Markdown document into blocks at blank lines (`"\n\n"`), skipping
/// pieces that are only whitespace, and returns the blocks with their ids in
/// document order. Ids are a millisecond timestamp read for each block and the
/// block's 1-based position, joined by `-` (a clock set before the epoch
/// reads as 0).
pub fn parse_document_to_blocks(markdown: &str) -> (res: (Vec<BlockData>, Vec<String>))
    ensures
        parsed_document(markdown@, res.0@, res.1@),
{
    let chars = str_chars(markdown);
    let pieces = split_at_blank_lines(&chars);
    let ghost all = vecs_view(pieces@);
    let mut blocks: Vec<BlockData> = Vec::new();
    let mut node_order: Vec<String> = Vec::new();
    let mut counter: u128 = 0;
    let mut i: usize = 0;
    while i < pieces.len()
        invariant
            all == vecs_view(pieces@),
            all == split_pieces(markdown@),
            i <= pieces.len(),
            nonblank(all.take(i as int)) == Seq::new(
                blocks.len() as nat,
                |k: int| blocks[k].plain_text@,
            ),
            blocks.len() == counter,
            counter <= i,
            node_order.len() == blocks.len(),
            forall|k: int|
                0 <= k < blocks.len() ==> {
                    &&& block_content_matches(#[trigger] blocks[k], blocks[k].plain_text@)
                    &&& exists|t: nat| blocks[k].id@ == #[trigger] block_id(t, (k + 1) as nat)
                    &&& node_order[k]@ == blocks[k].id@
                },
        decreases pieces.len() - i,
    {
        let piece = &pieces[i];
        let (lo, hi) = trim_bounds(piece);
        proof {
            assert(all.take(i + 1).drop_last() =~= all.take(i as int));
            assert(all.take(i + 1).last() == piece@);
        }
        if lo < hi {
            let raw = string_from_chars(piece);
            counter = counter + 1;
            let stamp = now_millis();
            let block = build_block(raw.as_str(), stamp, counter);
            let ghost old_blocks = blocks@;
            node_order.push(block.id.clone());
            blocks.push(block);
            proof {
                assert(nonblank(all.take(i + 1)) =~= Seq::new(
                    blocks.len() as nat,
                    |k: int| blocks[k].plain_text@,
                ));
                assert(blocks[blocks.len() - 1].id@ == block_id(
                    stamp as nat,
                    blocks.len() as nat,
                ));
            }
        } else {
            proof {
                assert(piece@.subrange(lo as int, hi as int).len() == 0);
            }
        }
        i = i + 1;
    }
    proof {
        assert(all.take(pieces.len() as int) =~= all);
        assert forall|k: int| 0 <= k < blocks.len() implies blocks[k].plain_text@
            == document_pieces(markdown@)[k] by {}
    }
    (blocks, node_order)
}

} // verus!
