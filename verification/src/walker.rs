//! The structural walker and the chunking pipeline. An external markdown
//! parser turns the document into a tree; the walker linearizes the tree
//! into typed leaves in depth-first document order. The pipeline elides
//! oversized code listings and merges the leaf payloads into chunks.

use vstd::prelude::*;

use crate::chunk::accumulate_chunks;
use crate::chunk::chunks_of;
use crate::chunk::groups_of;
use crate::chunk::joined_groups;
use crate::chunk::lemma_chunks_reconstruct;
use crate::chunk::lemma_single_leaf;
use crate::elide::elided;
use crate::elide::process_code_blocks;

verus! {

/// A text-bearing unit extracted from the parsed document, in document
/// order: a plain text run, an inline code span, or a code block.
pub enum Leaf {
    Text(String),
    InlineCode(String),
    CodeBlock(String),
}

/// The mathematical model of a leaf: its kind and its payload.
pub enum LeafModel {
    Text(Seq<char>),
    InlineCode(Seq<char>),
    CodeBlock(Seq<char>),
}

impl View for Leaf {
    type V = LeafModel;

    open spec fn view(&self) -> LeafModel {
        match self {
            Leaf::Text(s) => LeafModel::Text(s@),
            Leaf::InlineCode(s) => LeafModel::InlineCode(s@),
            Leaf::CodeBlock(s) => LeafModel::CodeBlock(s@),
        }
    }
}

impl DeepView for Leaf {
    type V = LeafModel;

    open spec fn deep_view(&self) -> LeafModel {
        self.view()
    }
}

/// The leaf sequence that the external markdown parser yields for a
/// document: the payloads of its text, inline-code and code-block nodes,
/// in depth-first document order.
pub uninterp spec fn md_leaves_of(text: Seq<char>) -> Seq<LeafModel>;

/// Relies on comrak's parse_document: the tree it builds depends on the
/// input text alone, it never fails, and an empty input yields a tree
/// without text-bearing nodes. The wrapper collects the payloads of the
/// text, inline-code and code-block nodes in depth-first document order.
#[verifier::external_body]
fn parse_leaves(content: &str) -> (leaves: Vec<Leaf>)
    ensures
        leaves.deep_view() == md_leaves_of(content@),
        content@.len() == 0 ==> leaves@.len() == 0,
{
    let arena = comrak::Arena::new();
    let root = comrak::parse_document(&arena, content, &comrak::Options::default());
    root.descendants()
        .filter_map(|node| match &node.data.borrow().value {
            comrak::nodes::NodeValue::Text(text) => Some(Leaf::Text(text.to_string())),
            comrak::nodes::NodeValue::Code(code) => Some(Leaf::InlineCode(code.literal.clone())),
            comrak::nodes::NodeValue::CodeBlock(block) => Some(Leaf::CodeBlock(block.literal.clone())),
            _ => None,
        })
        .collect()
}

/// The payload a leaf contributes to chunking: code-block payloads are
/// elided, text and inline-code payloads are taken as they are.
pub open spec fn elided_payload(leaf: LeafModel) -> Seq<char> {
    match leaf {
        LeafModel::Text(s) => s,
        LeafModel::InlineCode(s) => s,
        LeafModel::CodeBlock(s) => elided(s),
    }
}

/// The payload sequence of a leaf sequence, code blocks elided.
pub open spec fn elided_payloads(leaves: Seq<LeafModel>) -> Seq<Seq<char>> {
    leaves.map_values(|leaf: LeafModel| elided_payload(leaf))
}

/// Chunks a leaf sequence: elides oversized code-block payloads, then merges
/// the payloads in order into chunks bounded by `limit`.
pub fn chunk_leaves(leaves: &Vec<Leaf>, limit: usize) -> (chunks: Vec<String>)
    requires
        limit >= 1,
    ensures
        chunks.deep_view() == chunks_of(elided_payloads(leaves.deep_view()), limit as int),
{
    let mut payloads: Vec<String> = Vec::new();
    let mut idx: usize = 0;
    while idx < leaves.len()
        invariant
            idx <= leaves.len(),
            payloads@.len() == idx,
            payloads.deep_view() == elided_payloads(leaves.deep_view()).take(idx as int),
        decreases leaves.len() - idx,
    {
        let payload = match &leaves[idx] {
            Leaf::Text(s) => s.clone(),
            Leaf::InlineCode(s) => s.clone(),
            Leaf::CodeBlock(s) => process_code_blocks(s.as_str()),
        };
        proof {
            assert(leaves.deep_view()[idx as int] == leaves@[idx as int]@);
            assert(payload@ == elided_payload(leaves.deep_view()[idx as int]));
        }
        let ghost old_payloads = payloads@;
        payloads.push(payload);
        proof {
            let target = elided_payloads(leaves.deep_view()).take(idx as int + 1);
            assert forall|j: int| 0 <= j < idx as int + 1 implies payloads.deep_view()[j]
                == target[j] by {
                if j < idx as int {
                    assert(payloads.deep_view()[j] == payloads@[j].deep_view());
                    assert(payloads@[j] == old_payloads[j]);
                    assert(old_payloads[j].deep_view() == elided_payloads(
                        leaves.deep_view(),
                    ).take(idx as int)[j]);
                }
            }
            assert(payloads.deep_view() =~= target);
        }
        idx += 1;
    }
    proof {
        assert(elided_payloads(leaves.deep_view()).take(leaves.len() as int) =~= elided_payloads(
            leaves.deep_view(),
        ));
    }
    accumulate_chunks(&payloads, limit)
}

/// Reconstruction at the pipeline level: chunking the elided payloads of a
/// leaf sequence partitions those payloads into consecutive non-empty
/// groups — none dropped, duplicated or reordered — and each chunk is its
/// group joined by the single spaces the accumulator inserted. Stated for
/// leaves whose elided payloads are non-empty: a leaf with an empty payload
/// arriving on an empty buffer contributes no chunk, so the property cannot
/// hold of it.
pub proof fn lemma_document_reconstruct(leaves: Seq<LeafModel>, limit: int)
    requires
        forall|i: int| 0 <= i < leaves.len() ==> elided_payload(#[trigger] leaves[i]).len() >= 1,
    ensures
        groups_of(elided_payloads(leaves), limit).flatten() == elided_payloads(leaves),
        chunks_of(elided_payloads(leaves), limit) == joined_groups(
            groups_of(elided_payloads(leaves), limit),
        ),
{
    assert forall|i: int|
        0 <= i < elided_payloads(leaves).len() implies #[trigger] elided_payloads(
        leaves,
    )[i].len() >= 1 by {
        assert(elided_payloads(leaves)[i] == elided_payload(leaves[i]));
    }
    lemma_chunks_reconstruct(elided_payloads(leaves), limit);
}

/// A document whose leaf sequence is one leaf with a non-empty elided
/// payload within the limit yields exactly one chunk, equal to that
/// payload.
pub proof fn lemma_single_leaf_document(leaf: LeafModel, limit: int)
    requires
        1 <= elided_payload(leaf).len() <= limit,
    ensures
        chunks_of(elided_payloads(seq![leaf]), limit) == seq![elided_payload(leaf)],
{
    assert(elided_payloads(seq![leaf]) =~= seq![elided_payload(leaf)]);
    lemma_single_leaf(elided_payload(leaf), limit);
}

/// The whole pipeline for one document: parse it with the external markdown
/// parser, elide oversized code listings, and merge the leaf payloads into
/// chunks bounded by `limit`. An empty document yields no chunks.
pub fn chunk_markdown(content: &str, limit: usize) -> (chunks: Vec<String>)
    requires
        limit >= 1,
    ensures
        chunks.deep_view() == chunks_of(elided_payloads(md_leaves_of(content@)), limit as int),
        content@.len() == 0 ==> chunks@ == Seq::<String>::empty(),
{
    let leaves = parse_leaves(content);
    let chunks = chunk_leaves(&leaves, limit);
    proof {
        if content@.len() == 0 {
            assert(elided_payloads(md_leaves_of(content@)) =~= Seq::<Seq<char>>::empty());
            assert(chunks.deep_view().len() == 0);
            assert(chunks@ =~= Seq::<String>::empty());
        }
    }
    chunks
}

} // verus!
