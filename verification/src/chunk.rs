//! The chunk accumulator: merges an ordered sequence of leaf payloads into
//! bounded-size chunks, joining adjacent payloads with a single space.

use vstd::prelude::*;
use vstd::string::*;

verus! {

/// One step of the accumulator: fold the payload `next` into the state
/// (`acc`, `buf`), where `acc` holds the chunks emitted so far and `buf`
/// the chunk currently being built.
pub open spec fn chunk_step(
    acc: Seq<Seq<char>>,
    buf: Seq<char>,
    next: Seq<char>,
    limit: int,
) -> (Seq<Seq<char>>, Seq<char>) {
    if buf.len() == 0 {
        (acc, next)
    } else if buf.len() + 1 + next.len() > limit {
        (acc.push(buf), next)
    } else {
        (acc, buf + seq![' '] + next)
    }
}

/// The accumulator's loop, folding every payload of `leaves` in order into
/// the state (`acc`, `buf`).
pub open spec fn chunk_loop(
    leaves: Seq<Seq<char>>,
    limit: int,
    acc: Seq<Seq<char>>,
    buf: Seq<char>,
) -> (Seq<Seq<char>>, Seq<char>)
    decreases leaves.len(),
{
    if leaves.len() == 0 {
        (acc, buf)
    } else {
        let stepped = chunk_step(acc, buf, leaves[0], limit);
        chunk_loop(leaves.drop_first(), limit, stepped.0, stepped.1)
    }
}

/// The chunk sequence produced for the payload sequence `leaves` under the
/// character limit `limit`: run the loop from an empty state, then emit the
/// final buffer if it is non-empty.
pub open spec fn chunks_of(leaves: Seq<Seq<char>>, limit: int) -> Seq<Seq<char>> {
    let folded = chunk_loop(leaves, limit, Seq::empty(), Seq::empty());
    if folded.1.len() == 0 {
        folded.0
    } else {
        folded.0.push(folded.1)
    }
}

/// Folding one more payload at the right end of the input runs the loop on
/// the shorter input and then takes one more step.
proof fn lemma_chunk_loop_push(
    leaves: Seq<Seq<char>>,
    next: Seq<char>,
    limit: int,
    acc: Seq<Seq<char>>,
    buf: Seq<char>,
)
    ensures
        chunk_loop(leaves.push(next), limit, acc, buf) == ({
            let folded = chunk_loop(leaves, limit, acc, buf);
            chunk_step(folded.0, folded.1, next, limit)
        }),
    decreases leaves.len(),
{
    if leaves.len() == 0 {
        let stepped = chunk_step(acc, buf, next, limit);
        assert(leaves.push(next)[0] == next);
        assert(leaves.push(next).drop_first() =~= Seq::<Seq<char>>::empty());
        assert(chunk_loop(Seq::<Seq<char>>::empty(), limit, stepped.0, stepped.1) == stepped);
    } else {
        assert(leaves.push(next)[0] == leaves[0]);
        assert(leaves.push(next).drop_first() =~= leaves.drop_first().push(next));
        let stepped = chunk_step(acc, buf, leaves[0], limit);
        lemma_chunk_loop_push(leaves.drop_first(), next, limit, stepped.0, stepped.1);
    }
}

/// What the size invariant allows a chunk to be: non-empty, and within the
/// limit unless it is a single leaf payload that itself exceeds the limit.
pub open spec fn chunk_ok(c: Seq<char>, leaves: Seq<Seq<char>>, limit: int) -> bool {
    c.len() >= 1 && (c.len() <= limit || leaves.contains(c))
}

proof fn lemma_chunk_loop_ok(
    leaves: Seq<Seq<char>>,
    limit: int,
    acc: Seq<Seq<char>>,
    buf: Seq<char>,
    all: Seq<Seq<char>>,
)
    requires
        forall|i: int| 0 <= i < acc.len() ==> chunk_ok(#[trigger] acc[i], all, limit),
        buf.len() == 0 || chunk_ok(buf, all, limit),
        forall|i: int| 0 <= i < leaves.len() ==> all.contains(#[trigger] leaves[i]),
    ensures
        ({
            let folded = chunk_loop(leaves, limit, acc, buf);
            &&& forall|i: int|
                0 <= i < folded.0.len() ==> chunk_ok(#[trigger] folded.0[i], all, limit)
            &&& folded.1.len() == 0 || chunk_ok(folded.1, all, limit)
        }),
    decreases leaves.len(),
{
    if leaves.len() != 0 {
        let stepped = chunk_step(acc, buf, leaves[0], limit);
        assert(all.contains(leaves[0]));
        lemma_chunk_loop_ok(leaves.drop_first(), limit, stepped.0, stepped.1, all);
    }
}

/// Size invariant of the chunk sequence: every chunk is non-empty, and every
/// chunk is within the limit except one that is a single leaf payload whose
/// own length exceeds the limit.
pub proof fn lemma_chunk_size_bound(leaves: Seq<Seq<char>>, limit: int)
    requires
        limit >= 1,
    ensures
        forall|i: int|
            0 <= i < chunks_of(leaves, limit).len() ==> {
                let c = #[trigger] chunks_of(leaves, limit)[i];
                c.len() >= 1 && (c.len() <= limit || leaves.contains(c))
            },
{
    lemma_chunk_loop_ok(
        leaves,
        limit,
        Seq::<Seq<char>>::empty(),
        Seq::<char>::empty(),
        leaves,
    );
}

/// A leaf sequence of one non-empty payload within the limit yields
/// exactly one chunk, equal to that payload.
pub proof fn lemma_single_leaf(leaf: Seq<char>, limit: int)
    requires
        1 <= leaf.len() <= limit,
    ensures
        chunks_of(seq![leaf], limit) == seq![leaf],
{
    let leaves = seq![leaf];
    assert(leaves[0] == leaf);
    assert(leaves.drop_first() =~= Seq::<Seq<char>>::empty());
    assert(chunk_loop(Seq::<Seq<char>>::empty(), limit, Seq::<Seq<char>>::empty(), leaf) == (
        Seq::<Seq<char>>::empty(),
        leaf,
    ));
    assert(chunk_loop(leaves, limit, Seq::<Seq<char>>::empty(), Seq::<char>::empty()) == (
        Seq::<Seq<char>>::empty(),
        leaf,
    ));
    assert(Seq::<Seq<char>>::empty().push(leaf) =~= seq![leaf]);
}

/// The payloads of a group joined by single spaces.
pub open spec fn join_spaced(group: Seq<Seq<char>>) -> Seq<char>
    decreases group.len(),
{
    if group.len() == 0 {
        Seq::empty()
    } else if group.len() == 1 {
        group[0]
    } else {
        join_spaced(group.drop_last()) + seq![' '] + group.last()
    }
}

/// Each group joined by single spaces.
pub open spec fn joined_groups(groups: Seq<Seq<Seq<char>>>) -> Seq<Seq<char>> {
    groups.map_values(|group: Seq<Seq<char>>| join_spaced(group))
}

/// The accumulator's step, tracked on groups of leaf payloads instead of on
/// the joined chunk text.
pub open spec fn group_step(
    gacc: Seq<Seq<Seq<char>>>,
    gbuf: Seq<Seq<char>>,
    next: Seq<char>,
    limit: int,
) -> (Seq<Seq<Seq<char>>>, Seq<Seq<char>>) {
    if gbuf.len() == 0 {
        (gacc, seq![next])
    } else if join_spaced(gbuf).len() + 1 + next.len() > limit {
        (gacc.push(gbuf), seq![next])
    } else {
        (gacc, gbuf.push(next))
    }
}

/// The accumulator's loop, tracked on groups of leaf payloads.
pub open spec fn group_loop(
    leaves: Seq<Seq<char>>,
    limit: int,
    gacc: Seq<Seq<Seq<char>>>,
    gbuf: Seq<Seq<char>>,
) -> (Seq<Seq<Seq<char>>>, Seq<Seq<char>>)
    decreases leaves.len(),
{
    if leaves.len() == 0 {
        (gacc, gbuf)
    } else {
        let stepped = group_step(gacc, gbuf, leaves[0], limit);
        group_loop(leaves.drop_first(), limit, stepped.0, stepped.1)
    }
}

/// The partition of the leaf payload sequence that chunking induces: each
/// group holds the consecutive payloads that were merged into one chunk.
pub open spec fn groups_of(leaves: Seq<Seq<char>>, limit: int) -> Seq<Seq<Seq<char>>> {
    let folded = group_loop(leaves, limit, Seq::empty(), Seq::empty());
    if folded.1.len() == 0 {
        folded.0
    } else {
        folded.0.push(folded.1)
    }
}

/// A group of non-empty payloads joins to non-empty text.
proof fn lemma_join_spaced_nonempty(group: Seq<Seq<char>>)
    requires
        group.len() >= 1,
        forall|i: int| 0 <= i < group.len() ==> #[trigger] group[i].len() >= 1,
    ensures
        join_spaced(group).len() >= 1,
{
    if group.len() == 1 {
        assert(group[0].len() >= 1);
    }
}

/// Appending a payload to a non-empty group extends the joined text by a
/// space and that payload.
proof fn lemma_join_spaced_push(group: Seq<Seq<char>>, next: Seq<char>)
    requires
        group.len() >= 1,
    ensures
        join_spaced(group.push(next)) == join_spaced(group) + seq![' '] + next,
{
    assert(group.push(next).drop_last() =~= group);
    assert(group.push(next).last() == next);
}

/// The group-tracking loop mirrors the chunk loop: joining its state gives
/// the chunk loop's state.
proof fn lemma_group_loop_mirrors(
    leaves: Seq<Seq<char>>,
    limit: int,
    gacc: Seq<Seq<Seq<char>>>,
    gbuf: Seq<Seq<char>>,
)
    requires
        forall|i: int| 0 <= i < leaves.len() ==> #[trigger] leaves[i].len() >= 1,
        forall|i: int| 0 <= i < gbuf.len() ==> #[trigger] gbuf[i].len() >= 1,
    ensures
        ({
            let grouped = group_loop(leaves, limit, gacc, gbuf);
            let folded = chunk_loop(leaves, limit, joined_groups(gacc), join_spaced(gbuf));
            &&& folded.0 == joined_groups(grouped.0)
            &&& folded.1 == join_spaced(grouped.1)
            &&& forall|i: int| 0 <= i < grouped.1.len() ==> #[trigger] grouped.1[i].len() >= 1
            &&& grouped.1.len() == 0 ==> gbuf.len() == 0 && leaves.len() == 0
        }),
    decreases leaves.len(),
{
    if leaves.len() != 0 {
        let next = leaves[0];
        assert(next.len() >= 1);
        let gstepped = group_step(gacc, gbuf, next, limit);
        let stepped = chunk_step(joined_groups(gacc), join_spaced(gbuf), next, limit);
        if gbuf.len() == 0 {
            assert(join_spaced(gbuf).len() == 0);
            assert(join_spaced(seq![next]) == next);
            assert(stepped == (joined_groups(gacc), join_spaced(seq![next])));
        } else {
            lemma_join_spaced_nonempty(gbuf);
            if join_spaced(gbuf).len() + 1 + next.len() > limit {
                assert(joined_groups(gacc.push(gbuf)) =~= joined_groups(gacc).push(
                    join_spaced(gbuf),
                ));
                assert(join_spaced(seq![next]) == next);
                assert(stepped == (joined_groups(gacc.push(gbuf)), join_spaced(seq![next])));
            } else {
                lemma_join_spaced_push(gbuf, next);
                assert(stepped == (joined_groups(gacc), join_spaced(gbuf.push(next))));
            }
        }
        lemma_group_loop_mirrors(leaves.drop_first(), limit, gstepped.0, gstepped.1);
    }
}

/// The group-tracking loop keeps every leaf payload, in order: its state
/// flattens back to what was already placed plus every payload folded in.
proof fn lemma_group_loop_flatten(
    leaves: Seq<Seq<char>>,
    limit: int,
    gacc: Seq<Seq<Seq<char>>>,
    gbuf: Seq<Seq<char>>,
)
    ensures
        ({
            let grouped = group_loop(leaves, limit, gacc, gbuf);
            grouped.0.flatten() + grouped.1 == gacc.flatten() + gbuf + leaves
        }),
    decreases leaves.len(),
{
    broadcast use Seq::lemma_flatten_push;

    let grouped = group_loop(leaves, limit, gacc, gbuf);
    if leaves.len() == 0 {
        assert(gacc.flatten() + gbuf + leaves =~= gacc.flatten() + gbuf);
    } else {
        let next = leaves[0];
        let gstepped = group_step(gacc, gbuf, next, limit);
        lemma_group_loop_flatten(leaves.drop_first(), limit, gstepped.0, gstepped.1);
        if gbuf.len() == 0 {
            assert(gacc.flatten() + seq![next] + leaves.drop_first() =~= gacc.flatten() + gbuf
                + leaves);
        } else if join_spaced(gbuf).len() + 1 + next.len() > limit {
            assert(gacc.push(gbuf).flatten() == gacc.flatten() + gbuf);
            assert(gacc.push(gbuf).flatten() + seq![next] + leaves.drop_first() =~= gacc.flatten()
                + gbuf + leaves);
        } else {
            assert(gacc.flatten() + gbuf.push(next) + leaves.drop_first() =~= gacc.flatten() + gbuf
                + leaves);
        }
    }
}

/// Reconstruction: chunking partitions the leaf payload sequence into
/// consecutive, non-empty groups — no payload dropped, duplicated or
/// reordered — and each chunk is exactly its group joined by the single
/// spaces the accumulator inserted.
pub proof fn lemma_chunks_reconstruct(leaves: Seq<Seq<char>>, limit: int)
    requires
        forall|i: int| 0 <= i < leaves.len() ==> #[trigger] leaves[i].len() >= 1,
    ensures
        groups_of(leaves, limit).flatten() == leaves,
        chunks_of(leaves, limit) == joined_groups(groups_of(leaves, limit)),
        forall|i: int|
            0 <= i < groups_of(leaves, limit).len() ==> #[trigger] groups_of(
                leaves,
                limit,
            )[i].len() >= 1,
{
    broadcast use Seq::lemma_flatten_push;

    let gempty = Seq::<Seq<Seq<char>>>::empty();
    let grouped = group_loop(leaves, limit, gempty, Seq::empty());
    assert(joined_groups(gempty) =~= Seq::<Seq<char>>::empty());
    assert(join_spaced(Seq::<Seq<char>>::empty()) == Seq::<char>::empty());
    lemma_group_loop_mirrors(leaves, limit, gempty, Seq::empty());
    lemma_group_loop_flatten(leaves, limit, gempty, Seq::empty());
    lemma_group_loop_groups_ok(leaves, limit, gempty, Seq::empty());
    assert(gempty.flatten() =~= Seq::<Seq<char>>::empty());
    if grouped.1.len() == 0 {
        assert(groups_of(leaves, limit).flatten() + grouped.1 =~= groups_of(
            leaves,
            limit,
        ).flatten());
        assert(Seq::<Seq<char>>::empty() + Seq::<Seq<char>>::empty() + leaves =~= leaves);
    } else {
        lemma_join_spaced_nonempty(grouped.1);
        assert(grouped.0.push(grouped.1).flatten() == grouped.0.flatten() + grouped.1);
        assert(grouped.0.flatten() + grouped.1 =~= Seq::<Seq<char>>::empty() + Seq::<
            Seq<char>,
        >::empty() + leaves);
        assert(Seq::<Seq<char>>::empty() + Seq::<Seq<char>>::empty() + leaves =~= leaves);
        assert(joined_groups(grouped.0.push(grouped.1)) =~= joined_groups(grouped.0).push(
            join_spaced(grouped.1),
        ));
    }
}

/// Every group the group-tracking loop has placed is non-empty.
proof fn lemma_group_loop_groups_ok(
    leaves: Seq<Seq<char>>,
    limit: int,
    gacc: Seq<Seq<Seq<char>>>,
    gbuf: Seq<Seq<char>>,
)
    requires
        forall|i: int| 0 <= i < leaves.len() ==> #[trigger] leaves[i].len() >= 1,
        forall|i: int| 0 <= i < gacc.len() ==> #[trigger] gacc[i].len() >= 1,
    ensures
        ({
            let grouped = group_loop(leaves, limit, gacc, gbuf);
            forall|i: int| 0 <= i < grouped.0.len() ==> #[trigger] grouped.0[i].len() >= 1
        }),
    decreases leaves.len(),
{
    if leaves.len() != 0 {
        let gstepped = group_step(gacc, gbuf, leaves[0], limit);
        assert forall|i: int| 0 <= i < gstepped.0.len() implies #[trigger] gstepped.0[i].len()
            >= 1 by {
            if gbuf.len() != 0 && join_spaced(gbuf).len() + 1 + leaves[0].len() > limit {
                assert(gstepped.0 == gacc.push(gbuf));
                if i < gacc.len() {
                    assert(gacc[i].len() >= 1);
                } else {
                    assert(gstepped.0[i] == gbuf);
                }
            } else {
                assert(gstepped.0 == gacc);
            }
        }
        assert(forall|i: int|
            0 <= i < leaves.drop_first().len() ==> #[trigger] leaves.drop_first()[i].len() >= 1);
        lemma_group_loop_groups_ok(leaves.drop_first(), limit, gstepped.0, gstepped.1);
        assert(group_loop(leaves, limit, gacc, gbuf) == group_loop(
            leaves.drop_first(),
            limit,
            gstepped.0,
            gstepped.1,
        ));
    } else {
        assert(group_loop(leaves, limit, gacc, gbuf).0 == gacc);
    }
}

/// The Chunk Accumulator. Merges the payloads into chunks in order: a payload
/// is appended to the open buffer after a single space separator when the
/// joined length stays within `limit`; otherwise the buffer is emitted and
/// the payload opens a fresh buffer. A payload longer than `limit` is never
/// split: it forms a chunk of its own.
pub fn accumulate_chunks(payloads: &Vec<String>, limit: usize) -> (chunks: Vec<String>)
    requires
        limit >= 1,
    ensures
        chunks.deep_view() == chunks_of(payloads.deep_view(), limit as int),
{
    let ghost all: Seq<Seq<char>> = payloads.deep_view();
    let mut chunks: Vec<String> = Vec::new();
    let mut buf: String = String::new();
    let mut idx: usize = 0;
    while idx < payloads.len()
        invariant
            idx <= payloads.len(),
            all == payloads.deep_view(),
            (chunks.deep_view(), buf@) == chunk_loop(
                all.take(idx as int),
                limit as int,
                Seq::<Seq<char>>::empty(),
                Seq::<char>::empty(),
            ),
        decreases payloads.len() - idx,
    {
        let s = &payloads[idx];
        let buf_len = buf.as_str().unicode_len();
        let s_len = s.as_str().unicode_len();
        proof {
            assert(all[idx as int] == payloads@[idx as int]@);
            lemma_chunk_loop_push(
                all.take(idx as int),
                all[idx as int],
                limit as int,
                Seq::<Seq<char>>::empty(),
                Seq::<char>::empty(),
            );
            assert(all.take(idx as int).push(all[idx as int]) =~= all.take(idx as int + 1));
        }
        if buf_len == 0 {
            buf = s.clone();
        } else if (buf_len as u128) + 1 + (s_len as u128) > (limit as u128) {
            chunks.push(buf);
            buf = s.clone();
            proof {
                assert(chunks.deep_view() =~= chunk_loop(
                    all.take(idx as int + 1),
                    limit as int,
                    Seq::<Seq<char>>::empty(),
                    Seq::<char>::empty(),
                ).0);
            }
        } else {
            buf.append(" ");
            buf.append(s.as_str());
            proof {
                reveal_strlit(" ");
                assert(" "@ =~= seq![' ']);
            }
        }
        idx += 1;
    }
    proof {
        assert(all.take(payloads.len() as int) =~= all);
    }
    if buf.as_str().unicode_len() > 0 {
        chunks.push(buf);
        proof {
            assert(chunks.deep_view() =~= chunks_of(all, limit as int));
        }
    }
    chunks
}

} // verus!
