//! Context extraction for the skip-gram model family.
//!
//! For each focus position in a sentence the trainer enumerates the
//! in-window context positions, applies subsampling, and maps each
//! (context id, offset) to the output-matrix row that the model
//! variant trains: the id itself for plain skip-gram, an
//! offset-tagged row for structured skip-gram, a direction-tagged
//! row for directional skip-gram.

use crate::config::{ModelType, SkipGramConfig};
use crate::sampling::TrainRng;
use crate::vocab::Vocab;
use vstd::prelude::*;

verus! {

/// `j` is a context position for focus `i`: inside the sentence,
/// inside the window, and not the focus itself.
pub open spec fn in_window(i: int, len: int, context_size: int, j: int) -> bool {
    0 <= j < len && j != i && i - context_size <= j <= i + context_size
}

/// The in-window context positions of focus `i` from `j` on, in
/// ascending order.
pub open spec fn win_from(i: int, len: int, cs: int, j: int) -> Seq<int>
    decreases i + cs + 1 - j,
{
    if j >= len || j > i + cs {
        Seq::empty()
    } else if j == i {
        win_from(i, len, cs, j + 1)
    } else {
        seq![j] + win_from(i, len, cs, j + 1)
    }
}

/// The in-window context positions of focus `i`, in ascending order.
pub open spec fn win_positions(i: int, len: int, cs: int) -> Seq<int> {
    win_from(
        i,
        len,
        cs,
        if i - cs < 0 {
            0
        } else {
            i - cs
        },
    )
}

/// The context positions of focus `i`, in ascending order.
pub fn context_positions(i: usize, len: usize, context_size: u32) -> (r: Vec<usize>)
    requires
        i < len,
    ensures
        forall|k: int|
            0 <= k < r@.len() ==> in_window(i as int, len as int, context_size as int, (
            #[trigger] r@[k]) as int),
        forall|j: usize|
            in_window(i as int, len as int, context_size as int, j as int) ==> r@.contains(j),
        forall|k1: int, k2: int| 0 <= k1 < k2 < r@.len() ==> r@[k1] < r@[k2],
        r@.map_values(|p: usize| p as int) == win_positions(
            i as int,
            len as int,
            context_size as int,
        ),
{
    let cs = context_size as usize;
    let lo: usize = if i > cs {
        i - cs
    } else {
        0
    };
    let hi: usize = if cs < len - 1 - i {
        i + cs
    } else {
        len - 1
    };
    let mut r: Vec<usize> = Vec::new();
    let mut j: usize = lo;
    while j <= hi
        invariant
            lo <= j,
            i < len,
            j <= hi + 1,
            hi < len,
            hi == if i + cs < len {
                (i + cs) as int
            } else {
                (len - 1) as int
            },
            lo == if i > cs {
                (i - cs) as int
            } else {
                0
            },
            forall|k: int|
                0 <= k < r@.len() ==> in_window(i as int, len as int, cs as int, (
                #[trigger] r@[k]) as int),
            forall|p: usize|
                in_window(i as int, len as int, cs as int, p as int) && p < j ==> r@.contains(p),
            forall|k1: int, k2: int| 0 <= k1 < k2 < r@.len() ==> r@[k1] < r@[k2],
            forall|k: int| 0 <= k < r@.len() ==> (#[trigger] r@[k]) < j,
            cs == context_size,
            r@.map_values(|p: usize| p as int) + win_from(
                i as int,
                len as int,
                cs as int,
                j as int,
            ) == win_positions(i as int, len as int, cs as int),
        decreases hi + 1 - j,
    {
        let ghost oldr = r@;
        if j != i {
            r.push(j);
            proof {
                let f = |p: usize| p as int;
                assert(r@.map_values(f) =~= oldr.map_values(f).push(j as int));
                assert(oldr.map_values(f).push(j as int) + win_from(
                    i as int,
                    len as int,
                    cs as int,
                    j as int + 1,
                ) =~= oldr.map_values(f) + (seq![j as int] + win_from(
                    i as int,
                    len as int,
                    cs as int,
                    j as int + 1,
                )));
                assert forall|p: usize|
                    in_window(i as int, len as int, cs as int, p as int) && p < j
                        + 1 implies r@.contains(p) by {
                    if p < j {
                        assert(oldr.contains(p));
                        let k = choose|k: int| 0 <= k < oldr.len() && oldr[k] == p;
                        assert(r@[k] == p);
                    } else {
                        assert(r@[r@.len() - 1] == p);
                    }
                }
            }
        }
        j = j + 1;
    }
    proof {
        assert forall|p: usize|
            in_window(i as int, len as int, cs as int, p as int) implies r@.contains(p) by {
            assert(p <= hi);
            assert(p < j);
        }
        assert(win_from(i as int, len as int, cs as int, j as int) =~= Seq::<int>::empty());
        assert(r@.map_values(|p: usize| p as int) + Seq::<int>::empty() =~= r@.map_values(
            |p: usize| p as int,
        ));
    }
    r
}

/// The output-matrix row a structured skip-gram update trains: each
/// signed offset gets its own slot, so the row is the context id
/// scaled by the number of slots plus the offset's index.
pub open spec fn structured_offset_index(offset: int, context_size: int) -> int {
    if offset < 0 {
        offset + context_size
    } else {
        offset + context_size - 1
    }
}

/// The output row of a structured skip-gram update.
pub open spec fn structured_row_spec(id: int, offset: int, context_size: int) -> int {
    id * 2 * context_size + structured_offset_index(offset, context_size)
}

/// The output row of a directional skip-gram update: two slots per
/// id, one for contexts before the focus and one for after.
pub open spec fn directional_row_spec(id: int, offset: int) -> int {
    2 * id + if offset < 0 {
        0int
    } else {
        1int
    }
}

/// The output row a model variant trains for a context id at a
/// signed offset.
pub open spec fn output_row_spec(model: ModelType, id: int, offset: int, context_size: int) -> int {
    match model {
        ModelType::SkipGram => id,
        ModelType::StructuredSkipGram => structured_row_spec(id, offset, context_size),
        ModelType::DirectionalSkipgram => directional_row_spec(id, offset),
    }
}

/// The output row for a context id at a signed offset.
pub fn output_row(model: ModelType, id: u64, offset: i64, context_size: u32) -> (r: u64)
    requires
        1 <= context_size,
        -(context_size as int) <= offset <= context_size as int,
        offset != 0,
        id * 2 * (context_size as int) + 2 * (context_size as int) <= u64::MAX,
        2 * id + 1 <= u64::MAX,
    ensures
        r == output_row_spec(model, id as int, offset as int, context_size as int),
{
    match model {
        ModelType::SkipGram => id,
        ModelType::StructuredSkipGram => {
            let idx: u64 = if offset < 0 {
                (offset + context_size as i64) as u64
            } else {
                (offset + context_size as i64 - 1) as u64
            };
            proof {
                assert(id * 2 * (context_size as int) >= 0) by (nonlinear_arith)
                    requires
                        id >= 0,
                        context_size >= 1,
                ;
            }
            id * 2 * (context_size as u64) + idx
        },
        ModelType::DirectionalSkipgram => {
            2 * id + if offset < 0 {
                0
            } else {
                1
            }
        },
    }
}

/// Directional skip-gram distinguishes before from after: a context
/// before the focus and one after it never train the same output
/// row, whatever the offsets are.
pub proof fn lemma_directional_distinguishes_sign(id: int, o1: int, o2: int)
    requires
        o1 < 0,
        o2 > 0,
    ensures
        directional_row_spec(id, o1) != directional_row_spec(id, o2),
{
}

/// Structured skip-gram distinguishes every offset: two distinct
/// in-window offsets of the same context id never train the same
/// output row.
pub proof fn lemma_structured_distinguishes_offsets(id: int, context_size: int, o1: int, o2: int)
    requires
        context_size >= 1,
        -context_size <= o1 <= context_size,
        -context_size <= o2 <= context_size,
        o1 != 0,
        o2 != 0,
        o1 != o2,
    ensures
        structured_row_spec(id, o1, context_size) != structured_row_spec(id, o2, context_size),
{
}

/// One training pair: the focus id, and the output-matrix row to
/// train against it.
pub struct TrainingPair {
    /// The focus word id.
    pub focus: usize,
    /// The output-matrix row of the context.
    pub output: u64,
}

/// A well-formed pair for a sentence: focus and output row come from
/// an actual in-window (focus, context) position pair of the
/// sentence under the model's row mapping.
pub open spec fn pair_wf(
    p: TrainingPair,
    ids: Seq<Option<usize>>,
    model: ModelType,
    context_size: int,
) -> bool {
    exists|i: int, j: int|
        #![auto]
        0 <= i < ids.len() && in_window(i, ids.len() as int, context_size, j) && ids[i] == Some(
            p.focus,
        ) && ids[j] is Some && p.output == output_row_spec(
            model,
            ids[j].unwrap() as int,
            j - i,
            context_size,
        )
}

/// The training pair of a focus position and a context position.
pub open spec fn pair_of(
    ids: Seq<Option<usize>>,
    i: int,
    j: int,
    model: ModelType,
    cs: int,
) -> TrainingPair {
    TrainingPair {
        focus: ids[i].unwrap(),
        output: output_row_spec(model, ids[j].unwrap() as int, j - i, cs) as u64,
    }
}

/// The pairs of one focus over the context positions `ps`: one pair
/// per position holding a known id, in position order.
pub open spec fn pairs_over(
    ids: Seq<Option<usize>>,
    i: int,
    ps: Seq<int>,
    model: ModelType,
    cs: int,
) -> Seq<TrainingPair>
    decreases ps.len(),
{
    if ps.len() == 0 {
        Seq::empty()
    } else {
        pairs_over(ids, i, ps.drop_last(), model, cs) + (if ids[ps.last()] is Some {
            seq![pair_of(ids, i, ps.last(), model, cs)]
        } else {
            Seq::empty()
        })
    }
}

/// All pairs of the sentence with focus positions below `upto`:
/// every focus with a known id contributes its full window.
pub open spec fn sentence_pairs(
    ids: Seq<Option<usize>>,
    model: ModelType,
    cs: int,
    upto: int,
) -> Seq<TrainingPair>
    decreases upto,
{
    if upto <= 0 {
        Seq::empty()
    } else {
        sentence_pairs(ids, model, cs, upto - 1) + (if ids[upto - 1] is Some {
            pairs_over(ids, upto - 1, win_positions(upto - 1, ids.len() as int, cs), model, cs)
        } else {
            Seq::empty()
        })
    }
}

/// All training pairs of a sentence: what the trainer emits when
/// subsampling discards nothing.
pub open spec fn all_pairs(ids: Seq<Option<usize>>, model: ModelType, cs: int) -> Seq<
    TrainingPair,
> {
    sentence_pairs(ids, model, cs, ids.len() as int)
}

/// The emitted pairs come from a strictly increasing walk of the
/// enumeration: `prov[k]` is the (focus position, context position)
/// behind pair `k`, the witnesses are valid in-window pairs, and
/// they ascend lexicographically — so the stream is an in-order
/// subsequence of the full enumeration, with no pair invented,
/// duplicated or reordered.
pub open spec fn pairs_provenance(
    r: Seq<TrainingPair>,
    prov: Seq<(int, int)>,
    ids: Seq<Option<usize>>,
    model: ModelType,
    cs: int,
) -> bool {
    &&& prov.len() == r.len()
    &&& forall|k: int|
        0 <= k < prov.len() ==> 0 <= (#[trigger] prov[k]).0 < ids.len() && ids[prov[k].0] is Some
            && in_window(prov[k].0, ids.len() as int, cs, prov[k].1) && ids[prov[k].1] is Some
            && r[k] == pair_of(ids, prov[k].0, prov[k].1, model, cs)
    &&& forall|k1: int, k2: int|
        0 <= k1 < k2 < prov.len() ==> (#[trigger] prov[k1]).0 < (#[trigger] prov[k2]).0 || (
        prov[k1].0 == prov[k2].0 && prov[k1].1 < prov[k2].1)
}

/// Look up each token of a sentence in the vocabulary.
pub fn lookup_sentence(vocab: &Vocab, sentence: &Vec<String>) -> (r: Vec<Option<usize>>)
    ensures
        r@.len() == sentence@.len(),
        forall|k: int|
            0 <= k < r@.len() ==> (match #[trigger] r@[k] {
                Some(id) => id < vocab.spec_entries().len() && vocab.spec_entries()[
                    id as int
                ].ty.label@ == sentence@[k]@,
                None => forall|j: int|
                    0 <= j < vocab.spec_entries().len() ==> (
                    #[trigger] vocab.spec_entries()[j]).ty.label@ != sentence@[k]@,
            }),
{
    let mut r: Vec<Option<usize>> = Vec::new();
    let mut k: usize = 0;
    while k < sentence.len()
        invariant
            k <= sentence@.len(),
            r@.len() == k,
            forall|t: int|
                0 <= t < k ==> (match #[trigger] r@[t] {
                    Some(id) => id < vocab.spec_entries().len() && vocab.spec_entries()[
                        id as int
                    ].ty.label@ == sentence@[t]@,
                    None => forall|j: int|
                        0 <= j < vocab.spec_entries().len() ==> (
                        #[trigger] vocab.spec_entries()[j]).ty.label@ != sentence@[t]@,
                }),
        decreases sentence@.len() - k,
    {
        let id = vocab.idx(sentence[k].as_str());
        r.push(id);
        k = k + 1;
    }
    r
}

/// Extract the training pairs of one sentence.
///
/// For each focus position with a known id, a uniform draw against
/// the focus token's discard probability decides whether the
/// position trains; the same decision is made independently for each
/// context token. Every emitted pair is a well-formed (focus,
/// context) pair of this sentence; which pairs are emitted depends
/// on the generator — but when no involved token can ever be
/// discarded, the stream is exactly the full window enumeration,
/// whatever the generator returns.
pub fn train_pairs(
    vocab: &Vocab,
    ids: &Vec<Option<usize>>,
    config: SkipGramConfig,
    rng: &mut TrainRng,
) -> (r: Vec<TrainingPair>)
    requires
        vocab.wf(),
        1 <= config.context_size,
        ids@.len() < 0x8000_0000,
        config.context_size < 0x8000_0000,
        forall|k: int|
            0 <= k < ids@.len() && (#[trigger] ids@[k]) is Some ==> ids@[k].unwrap()
                < vocab.spec_entries().len(),
        vocab.spec_entries().len() * 2 * (config.context_size as int) + 2 * (
        config.context_size as int) <= u64::MAX,
        2 * vocab.spec_entries().len() + 1 <= u64::MAX,
    ensures
        forall|k: int|
            0 <= k < r@.len() ==> pair_wf(
                #[trigger] r@[k],
                ids@,
                config.model,
                config.context_size as int,
            ),
        (forall|k: int|
            0 <= k < ids@.len() && (#[trigger] ids@[k]) is Some ==> vocab.spec_discards()[
                ids@[k].unwrap() as int
            ] == 0) ==> r@ == all_pairs(ids@, config.model, config.context_size as int),
        exists|prov: Seq<(int, int)>|
            pairs_provenance(r@, prov, ids@, config.model, config.context_size as int),
{
    let ghost mut prov: Seq<(int, int)> = Seq::empty();
    let ghost never_discard = forall|k: int|
        0 <= k < ids@.len() && (#[trigger] ids@[k]) is Some ==> vocab.spec_discards()[
            ids@[k].unwrap() as int
        ] == 0;
    let mut r: Vec<TrainingPair> = Vec::new();
    let mut i: usize = 0;
    while i < ids.len()
        invariant
            i <= ids@.len(),
            vocab.wf(),
            1 <= config.context_size,
            ids@.len() < 0x8000_0000,
            config.context_size < 0x8000_0000,
            forall|k: int|
                0 <= k < ids@.len() && (#[trigger] ids@[k]) is Some ==> ids@[k].unwrap()
                    < vocab.spec_entries().len(),
            vocab.spec_entries().len() * 2 * (config.context_size as int) + 2 * (
            config.context_size as int) <= u64::MAX,
            2 * vocab.spec_entries().len() + 1 <= u64::MAX,
            forall|k: int|
                0 <= k < r@.len() ==> pair_wf(
                    #[trigger] r@[k],
                    ids@,
                    config.model,
                    config.context_size as int,
                ),
            never_discard == (forall|k: int|
                0 <= k < ids@.len() && (#[trigger] ids@[k]) is Some ==> vocab.spec_discards()[
                    ids@[k].unwrap() as int
                ] == 0),
            never_discard ==> r@ == sentence_pairs(
                ids@,
                config.model,
                config.context_size as int,
                i as int,
            ),
            pairs_provenance(r@, prov, ids@, config.model, config.context_size as int),
            forall|k: int| 0 <= k < prov.len() ==> (#[trigger] prov[k]).0 < i,
        decreases ids@.len() - i,
    {
        let ghost old_r = r@;
        let focus_id = match ids[i] {
            Some(id) => id,
            None => {
                proof {
                    assert(old_r + Seq::<TrainingPair>::empty() =~= old_r);
                }
                i = i + 1;
                continue ;
            },
        };
        let pdiscard = vocab.discard(focus_id);
        let draw = (rng.next_u32() as u64);
        if draw < pdiscard {
            proof {
                if never_discard {
                    assert(vocab.spec_discards()[focus_id as int] == 0);
                }
            }
            i = i + 1;
            continue ;
        }
        let positions = context_positions(i, ids.len(), config.context_size);
        let mut c: usize = 0;
        while c < positions.len()
            invariant
                c <= positions@.len(),
                vocab.wf(),
                1 <= config.context_size,
                ids@.len() < 0x8000_0000,
                config.context_size < 0x8000_0000,
                i < ids@.len(),
                ids@[i as int] == Some(focus_id),
                focus_id < vocab.spec_entries().len(),
                forall|k: int|
                    0 <= k < ids@.len() && (#[trigger] ids@[k]) is Some ==> ids@[k].unwrap()
                        < vocab.spec_entries().len(),
                vocab.spec_entries().len() * 2 * (config.context_size as int) + 2 * (
                config.context_size as int) <= u64::MAX,
                2 * vocab.spec_entries().len() + 1 <= u64::MAX,
                forall|k: int|
                    0 <= k < positions@.len() ==> in_window(
                        i as int,
                        ids@.len() as int,
                        config.context_size as int,
                        (#[trigger] positions@[k]) as int,
                    ),
                forall|k: int|
                    0 <= k < r@.len() ==> pair_wf(
                        #[trigger] r@[k],
                        ids@,
                        config.model,
                        config.context_size as int,
                    ),
                positions@.map_values(|p: usize| p as int) == win_positions(
                    i as int,
                    ids@.len() as int,
                    config.context_size as int,
                ),
                never_discard == (forall|k: int|
                    0 <= k < ids@.len() && (#[trigger] ids@[k]) is Some ==> vocab.spec_discards()[
                        ids@[k].unwrap() as int
                    ] == 0),
                never_discard ==> r@ == sentence_pairs(
                    ids@,
                    config.model,
                    config.context_size as int,
                    i as int,
                ) + pairs_over(
                    ids@,
                    i as int,
                    positions@.map_values(|p: usize| p as int).take(c as int),
                    config.model,
                    config.context_size as int,
                ),
                pairs_provenance(r@, prov, ids@, config.model, config.context_size as int),
                forall|k1: int, k2: int| 0 <= k1 < k2 < positions@.len() ==> positions@[k1]
                    < positions@[k2],
                forall|k: int|
                    0 <= k < prov.len() ==> (#[trigger] prov[k]).0 < i || (prov[k].0 == i
                        && exists|cp: int| 0 <= cp < c && prov[k].1 == (
                        #[trigger] positions@[cp]) as int),
            decreases positions@.len() - c,
        {
            let ghost wp = positions@.map_values(|p: usize| p as int);
            let ghost inner_old_r = r@;
            proof {
                assert(wp.take(c + 1).drop_last() =~= wp.take(c as int));
                assert(wp.take(c + 1).last() == wp[c as int]);
                assert(wp[c as int] == positions@[c as int] as int);
            }
            let j = positions[c];
            let ctx_id = match ids[j] {
                Some(id) => id,
                None => {
                    proof {
                        assert(inner_old_r + Seq::<TrainingPair>::empty() =~= inner_old_r);
                    }
                    c = c + 1;
                    continue ;
                },
            };
            let ctx_discard = vocab.discard(ctx_id);
            let ctx_draw = (rng.next_u32() as u64);
            if ctx_draw < ctx_discard {
                proof {
                    if never_discard {
                        assert(ids@[j as int] is Some);
                        assert(vocab.spec_discards()[ctx_id as int] == 0);
                    }
                }
                c = c + 1;
                continue ;
            }
            proof {
                assert(in_window(
                    i as int,
                    ids@.len() as int,
                    config.context_size as int,
                    j as int,
                ));
                assert((ctx_id as int) * 2 * (config.context_size as int) <= (
                vocab.spec_entries().len() as int) * 2 * (config.context_size as int))
                    by (nonlinear_arith)
                    requires
                        0 <= ctx_id < vocab.spec_entries().len(),
                        config.context_size >= 1,
                ;
            }
            let row = output_row(
                config.model,
                ctx_id as u64,
                (j as i64) - (i as i64),
                config.context_size,
            );
            let pair = TrainingPair { focus: focus_id, output: row };
            proof {
                assert(pair_wf(pair, ids@, config.model, config.context_size as int)) by {
                    assert(in_window(
                        i as int,
                        ids@.len() as int,
                        config.context_size as int,
                        j as int,
                    ));
                }
                assert(pair == pair_of(
                    ids@,
                    i as int,
                    j as int,
                    config.model,
                    config.context_size as int,
                ));
                if never_discard {
                    assert(inner_old_r.push(pair) =~= inner_old_r + seq![pair]);
                }
            }
            r.push(pair);
            proof {
                let ghost oldprov = prov;
                prov = prov.push((i as int, j as int));
                assert forall|k1: int, k2: int| 0 <= k1 < k2 < prov.len() implies (
                #[trigger] prov[k1]).0 < (#[trigger] prov[k2]).0 || (prov[k1].0 == prov[k2].0
                    && prov[k1].1 < prov[k2].1) by {
                    if k2 == prov.len() - 1 {
                        assert(prov[k1] == oldprov[k1]);
                        if oldprov[k1].0 == i {
                            let cp = choose|cp: int|
                                0 <= cp < c && oldprov[k1].1 == (
                                #[trigger] positions@[cp]) as int;
                            assert(positions@[cp] < positions@[c as int]);
                        }
                    }
                }
                assert forall|k: int|
                    0 <= k < prov.len() implies (#[trigger] prov[k]).0 < i || (prov[k].0 == i
                        && exists|cp: int| 0 <= cp < c + 1 && prov[k].1 == (
                        #[trigger] positions@[cp]) as int) by {
                    if k < prov.len() - 1 {
                        assert(prov[k] == oldprov[k]);
                        if oldprov[k].0 == i {
                            let cp = choose|cp: int|
                                0 <= cp < c && oldprov[k].1 == (#[trigger] positions@[cp]) as int;
                            assert(prov[k].1 == positions@[cp] as int);
                        }
                    } else {
                        assert(prov[k].1 == positions@[c as int] as int);
                    }
                }
            }
            c = c + 1;
        }
        proof {
            let wp = positions@.map_values(|p: usize| p as int);
            assert(wp.take(c as int) =~= wp);
            if never_discard {
                assert(r@ == sentence_pairs(
                    ids@,
                    config.model,
                    config.context_size as int,
                    i as int + 1,
                ));
            }
        }
        i = i + 1;
    }
    proof {
        assert(sentence_pairs(
            ids@,
            config.model,
            config.context_size as int,
            ids@.len() as int,
        ) == all_pairs(ids@, config.model, config.context_size as int));
        assert(pairs_provenance(r@, prov, ids@, config.model, config.context_size as int));
    }
    r
}

} // verus!
