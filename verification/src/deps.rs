//! Dependency trees: projectivization and dependency contexts.
//!
//! A parse is a head array: `heads[i]` is the position of token
//! `i`'s governor, or `None` when the token attaches to the ROOT
//! pseudo-token. Projectivization removes crossing arcs by lifting a
//! dependent to its grandparent until no two arcs cross.

use crate::config::DepembedsConfig;
use vstd::prelude::*;

verus! {

broadcast use vstd::string::group_string_axioms;

/// A dependency-parsed token: its surface form and the relation to
/// its governor.
pub struct DepToken {
    /// The surface form.
    pub form: String,
    /// The label of the relation to the governor.
    pub relation: String,
}

/// Errors of malformed parse trees.
#[derive(Clone, Copy, Debug, PartialEq, Eq, Structural)]
pub enum TreeError {
    /// Lifting never converged: the head array holds a cycle.
    Cyclic,
}

/// Every head is in range and no token governs itself.
pub open spec fn valid_heads(heads: Seq<Option<usize>>) -> bool {
    forall|i: int|
        0 <= i < heads.len() && (#[trigger] heads[i]) is Some ==> heads[i].unwrap() < heads.len()
            && heads[i].unwrap() != i
}

/// The smaller endpoint of an arc.
pub open spec fn span_min(a: int, b: int) -> int {
    if a < b {
        a
    } else {
        b
    }
}

/// The larger endpoint of an arc.
pub open spec fn span_max(a: int, b: int) -> int {
    if a < b {
        b
    } else {
        a
    }
}

/// Two arcs cross: their spans strictly interleave.
pub open spec fn crossing(i: int, hi: int, j: int, hj: int) -> bool {
    (span_min(i, hi) < span_min(j, hj) && span_min(j, hj) < span_max(i, hi) && span_max(i, hi)
        < span_max(j, hj)) || (span_min(j, hj) < span_min(i, hi) && span_min(i, hi) < span_max(
        j,
        hj,
    ) && span_max(j, hj) < span_max(i, hi))
}

/// A tree is projective when no two of its arcs cross.
pub open spec fn projective(heads: Seq<Option<usize>>) -> bool {
    forall|i: int, j: int|
        0 <= i < heads.len() && 0 <= j < heads.len() && (#[trigger] heads[i]) is Some && (
        #[trigger] heads[j]) is Some ==> !crossing(
            i,
            heads[i].unwrap() as int,
            j,
            heads[j].unwrap() as int,
        )
}

/// The arcs of `i` and `j` both exist and cross.
pub open spec fn arcs_cross_at(heads: Seq<Option<usize>>, i: int, j: int) -> bool {
    &&& 0 <= i < heads.len()
    &&& 0 <= j < heads.len()
    &&& heads[i] is Some
    &&& heads[j] is Some
    &&& crossing(i, heads[i].unwrap() as int, j, heads[j].unwrap() as int)
}

/// The least `j` at or past `from` whose arc crosses that of `i`,
/// or `-1` when none does.
pub open spec fn first_partner(heads: Seq<Option<usize>>, i: int, from: int) -> int
    decreases heads.len() - from,
{
    if from < 0 || from >= heads.len() {
        -1
    } else if arcs_cross_at(heads, i, from) {
        from
    } else {
        first_partner(heads, i, from + 1)
    }
}

/// The first pair of crossing arcs in scan order: the least
/// dependent whose arc crosses another, with its least partner.
pub open spec fn first_crossing_from(heads: Seq<Option<usize>>, i: int) -> Option<(int, int)>
    decreases heads.len() - i,
{
    if i < 0 || i >= heads.len() {
        None
    } else if first_partner(heads, i, 0) >= 0 {
        Some((i, first_partner(heads, i, 0)))
    } else {
        first_crossing_from(heads, i + 1)
    }
}

/// The first pair of crossing arcs, if any.
pub open spec fn first_crossing(heads: Seq<Option<usize>>) -> Option<(int, int)> {
    first_crossing_from(heads, 0)
}

/// `first_partner` returns the least crossing partner, and only one.
proof fn lemma_first_partner_props(heads: Seq<Option<usize>>, i: int, from: int)
    requires
        0 <= from,
    ensures
        first_partner(heads, i, from) >= 0 ==> from <= first_partner(heads, i, from)
            < heads.len() && arcs_cross_at(heads, i, first_partner(heads, i, from)) && (forall|
            b: int,
        |
            from <= b < first_partner(heads, i, from) ==> !arcs_cross_at(heads, i, b)),
        first_partner(heads, i, from) < 0 ==> forall|b: int|
            from <= b < heads.len() ==> !arcs_cross_at(heads, i, b),
    decreases heads.len() - from,
{
    if 0 <= from < heads.len() && !arcs_cross_at(heads, i, from) {
        lemma_first_partner_props(heads, i, from + 1);
    }
}

/// The partner found first by an ascending scan is `first_partner`.
proof fn lemma_first_partner_at(heads: Seq<Option<usize>>, i: int, j: int)
    requires
        0 <= j < heads.len(),
        arcs_cross_at(heads, i, j),
        forall|b: int| 0 <= b < j ==> !arcs_cross_at(heads, i, b),
    ensures
        first_partner(heads, i, 0) == j,
{
    lemma_first_partner_props(heads, i, 0);
    let p = first_partner(heads, i, 0);
    if p < 0 {
        assert(!arcs_cross_at(heads, i, j));
    } else if p < j {
        assert(!arcs_cross_at(heads, i, p));
    } else if p > j {
        assert(!arcs_cross_at(heads, i, j));
    }
}

/// Rows without a crossing partner do not move the scan's result.
proof fn lemma_first_crossing_skip(heads: Seq<Option<usize>>, i: int)
    requires
        0 <= i <= heads.len(),
        forall|a: int| 0 <= a < i ==> first_partner(heads, a, 0) < 0,
    ensures
        first_crossing(heads) == first_crossing_from(heads, i),
    decreases i,
{
    if i > 0 {
        lemma_first_crossing_skip(heads, i - 1);
    }
}

/// A scan that comes back empty found no partner in any row.
proof fn lemma_none_partner_all(heads: Seq<Option<usize>>, i: int)
    requires
        0 <= i,
        first_crossing_from(heads, i) is None,
    ensures
        forall|a: int| i <= a < heads.len() ==> first_partner(heads, a, 0) < 0,
    decreases heads.len() - i,
{
    if i < heads.len() {
        lemma_none_partner_all(heads, i + 1);
    }
}

/// The scan finds no crossing pair exactly on projective trees.
pub proof fn lemma_first_crossing_iff_projective(heads: Seq<Option<usize>>)
    ensures
        (first_crossing(heads) is None) <==> projective(heads),
{
    if first_crossing(heads) is None {
        lemma_none_partner_all(heads, 0);
        assert forall|i: int, j: int|
            0 <= i < heads.len() && 0 <= j < heads.len() && (#[trigger] heads[i]) is Some && (
            #[trigger] heads[j]) is Some implies !crossing(
            i,
            heads[i].unwrap() as int,
            j,
            heads[j].unwrap() as int,
        ) by {
            lemma_first_partner_props(heads, i, 0);
            assert(!arcs_cross_at(heads, i, j));
        }
    } else {
        let ghost p = first_crossing(heads).unwrap();
        assert(arcs_cross_at(heads, p.0, p.1)) by {
            lemma_first_crossing_some(heads, 0);
        }
    }
}

/// When the scan from `i` finds a pair, that pair's arcs cross.
proof fn lemma_first_crossing_some(heads: Seq<Option<usize>>, i: int)
    requires
        0 <= i,
        first_crossing_from(heads, i) is Some,
    ensures
        arcs_cross_at(
            heads,
            first_crossing_from(heads, i).unwrap().0,
            first_crossing_from(heads, i).unwrap().1,
        ),
    decreases heads.len() - i,
{
    if i < heads.len() {
        if first_partner(heads, i, 0) >= 0 {
            lemma_first_partner_props(heads, i, 0);
        } else {
            lemma_first_crossing_some(heads, i + 1);
        }
    }
}

/// One lift: the first crossing arc's dependent is reattached to its
/// grandparent, or to the ROOT when it has none.
pub open spec fn lift_dependent(heads: Seq<Option<usize>>, a: int) -> Seq<Option<usize>> {
    let h = heads[a].unwrap() as int;
    let newhead = match heads[h] {
        Some(g) => if g != a {
            Some(g)
        } else {
            None
        },
        None => None,
    };
    heads.update(a, newhead)
}

/// The deterministic lifting procedure: while two arcs cross, lift
/// the first crossing pair's dependent; `None` when the lift budget
/// runs out before the tree is projective.
pub open spec fn projectivize_steps(heads: Seq<Option<usize>>, fuel: nat) -> Option<
    Seq<Option<usize>>,
>
    decreases fuel,
{
    match first_crossing(heads) {
        None => Some(heads),
        Some(p) => if fuel == 0 {
            None
        } else {
            projectivize_steps(lift_dependent(heads, p.0), (fuel - 1) as nat)
        },
    }
}

/// Whether the arcs of `i` and `j` cross.
fn crossing_exec(i: usize, hi: usize, j: usize, hj: usize) -> (r: bool)
    ensures
        r == crossing(i as int, hi as int, j as int, hj as int),
{
    let alo = if i < hi {
        i
    } else {
        hi
    };
    let ahi = if i < hi {
        hi
    } else {
        i
    };
    let blo = if j < hj {
        j
    } else {
        hj
    };
    let bhi = if j < hj {
        hj
    } else {
        j
    };
    (alo < blo && blo < ahi && ahi < bhi) || (blo < alo && alo < bhi && bhi < ahi)
}

/// Find a pair of crossing arcs, or report the tree projective.
fn find_nonprojective(heads: &Vec<Option<usize>>) -> (r: Option<(usize, usize)>)
    ensures
        (match r {
            Some(p) => first_crossing(heads@) == Some((p.0 as int, p.1 as int)) && p.0
                < heads@.len() && p.1 < heads@.len() && heads@[p.0 as int] is Some && heads@[
                p.1 as int
            ] is Some && crossing(
                p.0 as int,
                heads@[p.0 as int].unwrap() as int,
                p.1 as int,
                heads@[p.1 as int].unwrap() as int,
            ),
            None => first_crossing(heads@) is None && projective(heads@),
        }),
{
    let n = heads.len();
    let mut i: usize = 0;
    while i < n
        invariant
            i <= n,
            n == heads@.len(),
            forall|a: int| 0 <= a < i ==> first_partner(heads@, a, 0) < 0,
        decreases n - i,
    {
        if let Some(hi) = heads[i] {
            let mut j: usize = 0;
            while j < n
                invariant
                    j <= n,
                    i < n,
                    n == heads@.len(),
                    heads@[i as int] == Some(hi),
                    forall|a: int| 0 <= a < i ==> first_partner(heads@, a, 0) < 0,
                    forall|b: int| 0 <= b < j ==> !arcs_cross_at(heads@, i as int, b),
                decreases n - j,
            {
                if let Some(hj) = heads[j] {
                    if crossing_exec(i, hi, j, hj) {
                        proof {
                            assert(arcs_cross_at(heads@, i as int, j as int));
                            lemma_first_partner_at(heads@, i as int, j as int);
                            lemma_first_crossing_skip(heads@, i as int);
                            assert(first_crossing_from(heads@, i as int) == Some(
                                (i as int, j as int),
                            ));
                        }
                        return Some((i, j));
                    }
                }
                proof {
                    assert(!arcs_cross_at(heads@, i as int, j as int));
                }
                j = j + 1;
            }
            proof {
                lemma_first_partner_props(heads@, i as int, 0);
                if first_partner(heads@, i as int, 0) >= 0 {
                    assert(arcs_cross_at(heads@, i as int, first_partner(heads@, i as int, 0)));
                }
            }
        } else {
            proof {
                lemma_first_partner_props(heads@, i as int, 0);
                if first_partner(heads@, i as int, 0) >= 0 {
                    assert(arcs_cross_at(heads@, i as int, first_partner(heads@, i as int, 0)));
                }
            }
        }
        i = i + 1;
    }
    proof {
        lemma_first_crossing_skip(heads@, n as int);
        lemma_first_crossing_iff_projective(heads@);
    }
    None
}

/// Projectivize a tree by deterministic lifting: while two arcs
/// cross, reattach the first crossing arc's dependent to its
/// grandparent. The result is pinned to the spec-level procedure
/// `projectivize_steps`, so equal inputs always give equal outputs.
/// Applied to an already-projective tree this is a no-op: the input
/// comes back unchanged.
pub fn projectivize(heads: &Vec<Option<usize>>) -> (r: Result<Vec<Option<usize>>, TreeError>)
    requires
        valid_heads(heads@),
        heads@.len() < 0x8000_0000,
    ensures
        (match r {
            Ok(p) => {
                &&& Some(p@) == projectivize_steps(
                    heads@,
                    (heads@.len() * heads@.len() + 1) as nat,
                )
                &&& p@.len() == heads@.len()
                &&& valid_heads(p@)
                &&& projective(p@)
                &&& (projective(heads@) ==> p@ == heads@)
            },
            Err(_) => projectivize_steps(heads@, (heads@.len() * heads@.len() + 1) as nat)
                is None && !projective(heads@),
        }),
{
    let n = heads.len();
    let mut h: Vec<Option<usize>> = Vec::new();
    let mut i: usize = 0;
    while i < n
        invariant
            i <= n,
            n == heads@.len(),
            h@.len() == i,
            forall|k: int| 0 <= k < i ==> h@[k] == heads@[k],
        decreases n - i,
    {
        h.push(heads[i]);
        i = i + 1;
    }
    proof {
        assert(h@ =~= heads@);
    }
    proof {
        assert((n as int) * (n as int) < 0x4000000000000000) by (nonlinear_arith)
            requires
                0 <= n < 0x80000000,
        ;
    }
    let fuel0: u64 = (n as u64) * (n as u64) + 1;
    let mut fuel: u64 = fuel0;
    loop
        invariant
            n == heads@.len(),
            h@.len() == n,
            valid_heads(h@),
            fuel <= fuel0,
            fuel0 == heads@.len() * heads@.len() + 1,
            projectivize_steps(heads@, fuel0 as nat) == projectivize_steps(h@, fuel as nat),
            projective(heads@) ==> h@ == heads@,
        decreases fuel,
    {
        match find_nonprojective(&h) {
            None => {
                proof {
                    assert(projectivize_steps(h@, fuel as nat) == Some(h@));
                }
                return Ok(h);
            },
            Some((a, _b)) => {
                proof {
                    assert(!projective(h@));
                    if projective(heads@) {
                        assert(h@ == heads@);
                    }
                }
                if fuel == 0 {
                    proof {
                        assert(projectivize_steps(h@, 0) is None);
                        lemma_first_crossing_iff_projective(heads@);
                        if projective(heads@) {
                            assert(h@ == heads@);
                        }
                    }
                    return Err(TreeError::Cyclic);
                }
                let ha = match h[a] {
                    Some(x) => x,
                    None => {
                        proof {
                            assert(false);
                        }
                        return Err(TreeError::Cyclic);
                    },
                };
                let newhead: Option<usize> = match h[ha] {
                    Some(g) => if g != a {
                        Some(g)
                    } else {
                        None
                    },
                    None => None,
                };
                let ghost oldh = h@;
                h[a] = newhead;
                proof {
                    assert(h@ == oldh.update(a as int, newhead));
                    assert(h@ == lift_dependent(oldh, a as int));
                    assert(projectivize_steps(oldh, fuel as nat) == projectivize_steps(
                        h@,
                        (fuel - 1) as nat,
                    ));
                    assert forall|k: int|
                        0 <= k < h@.len() && (#[trigger] h@[k]) is Some implies h@[k].unwrap()
                        < h@.len() && h@[k].unwrap() != k by {
                        if k != a {
                            assert(h@[k] == oldh[k]);
                        }
                    }
                }
                fuel = fuel - 1;
            },
        }
    }
}

/// What `str::to_lowercase` returns: a function of the characters
/// alone.
pub uninterp spec fn lower_of(s: Seq<char>) -> Seq<char>;

/// Relies on str::to_lowercase: the result depends on the characters
/// alone; an empty string stays empty.
#[verifier::external_body]
fn lowercase(s: &str) -> (r: String)
    ensures
        r@ == lower_of(s@),
        s@.len() == 0 ==> r@.len() == 0,
{
    s.to_lowercase()
}

/// `b` lies within `d` tree edges of `a`.
pub open spec fn within_depth(heads: Seq<Option<usize>>, a: int, b: int, d: int) -> bool
    decreases d,
{
    if d <= 0 {
        false
    } else {
        adjacent(heads, a, b) || exists|m: int|
            0 <= m < heads.len() && #[trigger] adjacent(heads, a, m) && within_depth(
                heads,
                m,
                b,
                d - 1,
            )
    }
}

/// `a` and `b` share an arc.
pub open spec fn adjacent(heads: Seq<Option<usize>>, a: int, b: int) -> bool {
    0 <= a < heads.len() && 0 <= b < heads.len() && (heads[a] == Some(b as usize) || heads[b]
        == Some(a as usize))
}

/// Reachability within a depth bound is monotone in the bound.
pub proof fn lemma_within_depth_monotone(heads: Seq<Option<usize>>, a: int, b: int, d1: int, d2: int)
    requires
        within_depth(heads, a, b, d1),
        d1 <= d2,
    ensures
        within_depth(heads, a, b, d2),
    decreases d2,
{
    if d1 < d2 && d2 > 0 {
        if !adjacent(heads, a, b) {
            let m = choose|m: int|
                0 <= m < heads.len() && #[trigger] adjacent(heads, a, m) && within_depth(
                    heads,
                    m,
                    b,
                    d1 - 1,
                );
            lemma_within_depth_monotone(heads, m, b, d1 - 1, d2 - 1);
        }
    }
}

/// Some context in `cs` points at position `j`.
pub open spec fn contexted(cs: Seq<DepContext>, j: int) -> bool {
    exists|k: int| 0 <= k < cs.len() && (#[trigger] cs[k]).position == Some(j as usize)
}

/// Some context in `cs` is the ROOT pseudo-token.
pub open spec fn contexted_root(cs: Seq<DepContext>) -> bool {
    exists|k: int| 0 <= k < cs.len() && (#[trigger] cs[k]).position is None
}

/// The label of a typed dependency context: the relation of the
/// traversed arc — marked as inverse when the arc was walked upward,
/// from dependent to governor — then a slash, then the context
/// token's form, lowercased when `normalize` is set.
pub open spec fn typed_label(
    tokens: Seq<DepToken>,
    node: int,
    ctx: int,
    upward: bool,
    normalize: bool,
) -> Seq<char> {
    let form = if normalize {
        lower_of(tokens[ctx].form@)
    } else {
        tokens[ctx].form@
    };
    if upward {
        tokens[node].relation@ + "-1"@ + "/"@ + form
    } else {
        tokens[ctx].relation@ + "/"@ + form
    }
}

/// A typed context's label comes from an arc the walk crossed into
/// it: either upward into its own governor, or downward into one of
/// its dependents.
pub open spec fn typed_label_ok(
    cs: Seq<DepContext>,
    k: int,
    tokens: Seq<DepToken>,
    heads: Seq<Option<usize>>,
    normalize: bool,
) -> bool {
    exists|node: int, upward: bool|
        #![auto]
        0 <= node < heads.len() && (if upward {
            heads[node] == Some(cs[k].position.unwrap())
        } else {
            heads[cs[k].position.unwrap() as int] == Some(node as usize)
        }) && cs[k].label@ == typed_label(
            tokens,
            node,
            cs[k].position.unwrap() as int,
            upward,
            normalize,
        )
}

/// A ROOT context stays present when more contexts are appended.
proof fn lemma_contexted_root_push(cs: Seq<DepContext>, x: DepContext)
    requires
        contexted_root(cs),
    ensures
        contexted_root(cs.push(x)),
{
    let k = choose|k: int| 0 <= k < cs.len() && (#[trigger] cs[k]).position is None;
    assert(cs.push(x)[k].position is None);
}

/// A typed context's provenance stays valid when more contexts are
/// appended.
proof fn lemma_typed_ok_push(
    cs: Seq<DepContext>,
    x: DepContext,
    k: int,
    tokens: Seq<DepToken>,
    heads: Seq<Option<usize>>,
    normalize: bool,
)
    requires
        0 <= k < cs.len(),
        typed_label_ok(cs, k, tokens, heads, normalize),
    ensures
        typed_label_ok(cs.push(x), k, tokens, heads, normalize),
{
    let (node, upward) = choose|node: int, upward: bool|
        #![auto]
        0 <= node < heads.len() && (if upward {
            heads[node] == Some(cs[k].position.unwrap())
        } else {
            heads[cs[k].position.unwrap() as int] == Some(node as usize)
        }) && cs[k].label@ == typed_label(
            tokens,
            node,
            cs[k].position.unwrap() as int,
            upward,
            normalize,
        );
    assert(cs.push(x)[k] == cs[k]);
}

/// A context pointing at `j` stays present when more contexts are
/// appended.
proof fn lemma_contexted_push(cs: Seq<DepContext>, x: DepContext, j: int)
    requires
        contexted(cs, j),
    ensures
        contexted(cs.push(x), j),
{
    let k = choose|k: int| 0 <= k < cs.len() && (#[trigger] cs[k]).position == Some(j as usize);
    assert(cs.push(x)[k].position == Some(j as usize));
}

/// Every token within `d` arcs of `focus` is marked in `vis`.
pub open spec fn covered(heads: Seq<Option<usize>>, focus: int, vis: Seq<bool>, d: int) -> bool {
    forall|j: int|
        0 <= j < heads.len() && within_depth(heads, focus, j, d) ==> (#[trigger] vis[j]) == true
}

/// Every marked token outside the two work lists has all of its
/// neighbors marked.
pub open spec fn expanded_except(
    heads: Seq<Option<usize>>,
    vis: Seq<bool>,
    frontier: Seq<usize>,
    next: Seq<usize>,
) -> bool {
    forall|m: int, w: int|
        0 <= m < heads.len() && 0 <= w < heads.len() && vis[m] == true && !frontier.contains(
            m as usize,
        ) && !next.contains(m as usize) && #[trigger] adjacent(heads, m, w) ==> vis[w] == true
}

/// The first `f` frontier nodes have all their neighbors marked.
pub open spec fn nodes_expanded(
    heads: Seq<Option<usize>>,
    vis: Seq<bool>,
    frontier: Seq<usize>,
    f: int,
) -> bool {
    forall|fp: int, w: int|
        0 <= fp < f && fp < frontier.len() && 0 <= w < heads.len() && #[trigger] adjacent(
            heads,
            frontier[fp] as int,
            w,
        ) ==> vis[w] == true
}

/// A path within the depth bound decomposes at its last arc.
pub proof fn lemma_within_last_step(heads: Seq<Option<usize>>, a: int, b: int, d: int)
    requires
        within_depth(heads, a, b, d),
        d >= 1,
    ensures
        adjacent(heads, a, b) || exists|m: int|
            0 <= m < heads.len() && within_depth(heads, a, m, d - 1) && #[trigger] adjacent(
                heads,
                m,
                b,
            ),
    decreases d,
{
    if !adjacent(heads, a, b) {
        let m = choose|m: int|
            0 <= m < heads.len() && #[trigger] adjacent(heads, a, m) && within_depth(
                heads,
                m,
                b,
                d - 1,
            );
        lemma_within_last_step(heads, m, b, d - 1);
        if adjacent(heads, m, b) {
            assert(within_depth(heads, a, m, 1));
            lemma_within_depth_monotone(heads, a, m, 1, d - 1);
        } else {
            let m2 = choose|m2: int|
                0 <= m2 < heads.len() && within_depth(heads, m, m2, d - 2) && #[trigger] adjacent(
                    heads,
                    m2,
                    b,
                );
            assert(within_depth(heads, a, m2, d - 1)) by {
                assert(0 <= m < heads.len() && adjacent(heads, a, m) && within_depth(
                    heads,
                    m,
                    m2,
                    d - 2,
                ));
            }
        }
    }
}

/// One dependency context of a focus token.
pub struct DepContext {
    /// The position of the context token, or `None` for the ROOT
    /// pseudo-token.
    pub position: Option<usize>,
    /// The context label the output vocabulary is consulted with.
    pub label: String,
}

/// Dependency contexts of a focus token: exactly the tokens up to
/// `depth` arcs away, each appearing once, labeled by its surface
/// form — lowercased when `normalize` is set, prefixed with the
/// crossed arc's relation when typed — and the ROOT pseudo-token
/// when `use_root` is set and the walk meets it.
pub fn dependency_contexts(
    tokens: &Vec<DepToken>,
    heads: &Vec<Option<usize>>,
    focus: usize,
    config: DepembedsConfig,
) -> (r: Vec<DepContext>)
    requires
        valid_heads(heads@),
        tokens@.len() == heads@.len(),
        focus < heads@.len(),
        1 <= config.depth,
    ensures
        forall|k: int|
            0 <= k < r@.len() ==> (match (#[trigger] r@[k]).position {
                Some(j) => j < heads@.len() && j != focus && within_depth(
                    heads@,
                    focus as int,
                    j as int,
                    config.depth as int,
                ),
                None => config.use_root,
            }),
        forall|k: int|
            0 <= k < r@.len() && (#[trigger] r@[k]).position is Some && config.untyped
                && !config.normalize ==> r@[k].label@ == tokens@[
            r@[k].position.unwrap() as int
        ].form@,
        forall|k: int|
            0 <= k < r@.len() && (#[trigger] r@[k]).position is Some && config.untyped
                && config.normalize ==> r@[k].label@ == lower_of(
                tokens@[r@[k].position.unwrap() as int].form@,
            ),
        forall|k1: int, k2: int|
            0 <= k1 < k2 < r@.len() ==> (#[trigger] r@[k1]).position != (
            #[trigger] r@[k2]).position,
        forall|j: int|
            0 <= j < heads@.len() && #[trigger] adjacent(heads@, focus as int, j)
                ==> contexted(r@, j),
        forall|j: int|
            0 <= j < heads@.len() && j != focus && within_depth(
                heads@,
                focus as int,
                j,
                config.depth as int,
            ) ==> contexted(r@, j),
        forall|k: int|
            0 <= k < r@.len() && (#[trigger] r@[k]).position is Some && !config.untyped
                ==> typed_label_ok(r@, k, tokens@, heads@, config.normalize),
        config.use_root && heads@[focus as int] is None ==> contexted_root(r@),
        config.use_root ==> forall|m: int|
            0 <= m < heads@.len() && (#[trigger] heads@[m]) is None && within_depth(
                heads@,
                focus as int,
                m,
                config.depth as int - 1,
            ) ==> contexted_root(r@),
{
    let n = heads.len();
    let mut visited: Vec<bool> = Vec::new();
    let mut i: usize = 0;
    while i < n
        invariant
            i <= n,
            visited@.len() == i,
            forall|k: int| 0 <= k < i ==> (#[trigger] visited@[k]) == (k == focus),
        decreases n - i,
    {
        visited.push(i == focus);
        i = i + 1;
    }
    let mut contexts: Vec<DepContext> = Vec::new();
    let mut frontier: Vec<usize> = Vec::new();
    frontier.push(focus);
    let mut level: u32 = 0;
    let mut root_seen = false;
    proof {
        assert(frontier@[0] == focus);
        assert(frontier@.contains(focus));
        assert(expanded_except(heads@, visited@, frontier@, Seq::<usize>::empty())) by {
            assert forall|m: int, w: int|
                0 <= m < n && 0 <= w < n && visited@[m] == true && !frontier@.contains(m as usize)
                    && !Seq::<usize>::empty().contains(m as usize) && #[trigger] adjacent(
                    heads@,
                    m,
                    w,
                ) implies visited@[w] == true by {
                assert(m == focus);
            }
        }
    }
    while level < config.depth
        invariant
            n == heads@.len(),
            tokens@.len() == n,
            focus < n,
            valid_heads(heads@),
            visited@.len() == n,
            visited@[focus as int] == true,
            level <= config.depth,
            forall|k: int| 0 <= k < frontier@.len() ==> (#[trigger] frontier@[k]) < n,
            forall|k: int|
                0 <= k < frontier@.len() ==> frontier@[k] == focus || within_depth(
                    heads@,
                    focus as int,
                    (#[trigger] frontier@[k]) as int,
                    level as int,
                ),
            forall|k: int|
                0 <= k < contexts@.len() ==> (match (#[trigger] contexts@[k]).position {
                    Some(j) => j < n && j != focus && within_depth(
                        heads@,
                        focus as int,
                        j as int,
                        config.depth as int,
                    ),
                    None => config.use_root,
                }),
            forall|k: int|
                0 <= k < contexts@.len() && (#[trigger] contexts@[k]).position is Some
                    && config.untyped && !config.normalize ==> contexts@[k].label@ == tokens@[
                contexts@[k].position.unwrap() as int
            ].form@,
            forall|k: int|
                0 <= k < contexts@.len() && (#[trigger] contexts@[k]).position is Some
                    && config.untyped && config.normalize ==> contexts@[k].label@ == lower_of(
                    tokens@[contexts@[k].position.unwrap() as int].form@,
                ),
            forall|k: int|
                0 <= k < contexts@.len() && (#[trigger] contexts@[k]).position is Some
                    ==> visited@[contexts@[k].position.unwrap() as int] == true,
            forall|k: int|
                0 <= k < contexts@.len() && (#[trigger] contexts@[k]).position is None
                    ==> root_seen,
            forall|k1: int, k2: int|
                0 <= k1 < k2 < contexts@.len() ==> (#[trigger] contexts@[k1]).position != (
                #[trigger] contexts@[k2]).position,
            level == 0 ==> frontier@ == seq![focus],
            level >= 1 ==> (forall|j: int|
                0 <= j < n && #[trigger] adjacent(heads@, focus as int, j) ==> visited@[j]
                    == true),
            forall|p: int|
                0 <= p < n && (#[trigger] visited@[p]) == true && p != focus ==> contexted(
                    contexts@,
                    p,
                ),
            forall|k: int|
                0 <= k < contexts@.len() && (#[trigger] contexts@[k]).position is Some
                    && !config.untyped ==> typed_label_ok(
                    contexts@,
                    k,
                    tokens@,
                    heads@,
                    config.normalize,
                ),
            root_seen ==> contexted_root(contexts@),
            level >= 1 && config.use_root && heads@[focus as int] is None ==> root_seen,
            covered(heads@, focus as int, visited@, level as int),
            expanded_except(heads@, visited@, frontier@, Seq::<usize>::empty()),
            config.use_root ==> forall|m: int|
                0 <= m < n && (#[trigger] heads@[m]) is None && within_depth(
                    heads@,
                    focus as int,
                    m,
                    level as int - 1,
                ) ==> root_seen,
            config.use_root ==> forall|m: int|
                0 <= m < n && (#[trigger] visited@[m]) == true && !frontier@.contains(m as usize)
                    && heads@[m] is None ==> root_seen,
        decreases config.depth - level,
    {
        let ghost vis_entry = visited@;
        let mut next: Vec<usize> = Vec::new();
        let mut f: usize = 0;
        while f < frontier.len()
            invariant
                n == heads@.len(),
                tokens@.len() == n,
                focus < n,
                valid_heads(heads@),
                visited@.len() == n,
                visited@[focus as int] == true,
                f <= frontier@.len(),
                level < config.depth,
                forall|k: int| 0 <= k < frontier@.len() ==> (#[trigger] frontier@[k]) < n,
                forall|k: int|
                    0 <= k < frontier@.len() ==> frontier@[k] == focus || within_depth(
                        heads@,
                        focus as int,
                        (#[trigger] frontier@[k]) as int,
                        level as int,
                    ),
                forall|k: int| 0 <= k < next@.len() ==> (#[trigger] next@[k]) < n,
                forall|k: int|
                    0 <= k < next@.len() ==> within_depth(
                        heads@,
                        focus as int,
                        (#[trigger] next@[k]) as int,
                        level as int + 1,
                    ),
                forall|k: int|
                    0 <= k < contexts@.len() ==> (match (#[trigger] contexts@[k]).position {
                        Some(j) => j < n && j != focus && within_depth(
                            heads@,
                            focus as int,
                            j as int,
                            config.depth as int,
                        ),
                        None => config.use_root,
                    }),
                forall|k: int|
                    0 <= k < contexts@.len() && (#[trigger] contexts@[k]).position is Some
                        && config.untyped && !config.normalize ==> contexts@[k].label@ == tokens@[
                    contexts@[k].position.unwrap() as int
                ].form@,
                forall|k: int|
                    0 <= k < contexts@.len() && (#[trigger] contexts@[k]).position is Some
                        && config.untyped && config.normalize ==> contexts@[k].label@ == lower_of(
                        tokens@[contexts@[k].position.unwrap() as int].form@,
                    ),
                forall|k: int|
                    0 <= k < contexts@.len() && (#[trigger] contexts@[k]).position is Some
                        ==> visited@[contexts@[k].position.unwrap() as int] == true,
                forall|k: int|
                    0 <= k < contexts@.len() && (#[trigger] contexts@[k]).position is None
                        ==> root_seen,
                forall|k1: int, k2: int|
                    0 <= k1 < k2 < contexts@.len() ==> (#[trigger] contexts@[k1]).position != (
                    #[trigger] contexts@[k2]).position,
                level == 0 ==> frontier@ == seq![focus],
                level >= 1 || (level == 0 && f >= 1) ==> (forall|j: int|
                    0 <= j < n && #[trigger] adjacent(heads@, focus as int, j) ==> visited@[j]
                        == true),
                forall|p: int|
                    0 <= p < n && (#[trigger] visited@[p]) == true && p != focus ==> contexted(
                        contexts@,
                        p,
                    ),
                forall|k: int|
                    0 <= k < contexts@.len() && (#[trigger] contexts@[k]).position is Some
                        && !config.untyped ==> typed_label_ok(
                        contexts@,
                        k,
                        tokens@,
                        heads@,
                        config.normalize,
                    ),
                root_seen ==> contexted_root(contexts@),
                (level >= 1 || f >= 1) && config.use_root && heads@[focus as int] is None
                    ==> root_seen,
                vis_entry.len() == n,
                forall|p: int| 0 <= p < n && vis_entry[p] == true ==> (#[trigger] visited@[p])
                    == true,
                forall|p: int|
                    0 <= p < n && (#[trigger] visited@[p]) == true && vis_entry[p] != true
                        ==> next@.contains(p as usize),
                covered(heads@, focus as int, vis_entry, level as int),
                expanded_except(heads@, vis_entry, frontier@, Seq::<usize>::empty()),
                expanded_except(heads@, visited@, frontier@, next@),
                nodes_expanded(heads@, visited@, frontier@, f as int),
                config.use_root ==> forall|fp: int|
                    0 <= fp < f && fp < frontier@.len() && heads@[(
                    #[trigger] frontier@[fp]) as int] is None ==> root_seen,
                config.use_root ==> forall|m: int|
                    0 <= m < n && (#[trigger] visited@[m]) == true && !frontier@.contains(
                        m as usize,
                    ) && !next@.contains(m as usize) && heads@[m] is None ==> root_seen,
                config.use_root ==> forall|m: int|
                    0 <= m < n && vis_entry[m] == true && !frontier@.contains(m as usize) && (
                    #[trigger] heads@[m]) is None ==> root_seen,
            decreases frontier@.len() - f,
        {
            let node = frontier[f];
            proof {
                if level == 0 {
                    assert(frontier@ == seq![focus]);
                    assert(node == focus);
                }
            }
            proof {
                if node != focus {
                    lemma_within_depth_monotone(
                        heads@,
                        focus as int,
                        node as int,
                        level as int,
                        config.depth as int,
                    );
                }
            }
            // the governor of `node`, or the ROOT
            match heads[node] {
                Some(g) => {
                    proof {
                        assert(adjacent(heads@, node as int, g as int));
                        if node == focus {
                            assert(within_depth(heads@, focus as int, g as int, level as int + 1));
                        } else {
                            lemma_within_depth_step(
                                heads@,
                                focus as int,
                                node as int,
                                g as int,
                                level as int,
                            );
                        }
                    }
                    if !visited[g] {
                        let lab = context_label(tokens, node, g, true, config);
                        proof {
                            lemma_within_depth_monotone(
                                heads@,
                                focus as int,
                                g as int,
                                level as int + 1,
                                config.depth as int,
                            );
                        }
                        let ghost ctx0 = contexts@;
                        let ghost vis0 = visited@;
                        let ghost next0 = next@;
                        contexts.push(DepContext { position: Some(g), label: lab });
                        let _ = set_visited(&mut visited, g);
                        next.push(g);
                        proof {
                            assert(next@[next@.len() - 1] == g);
                            assert(next@.contains(g));
                            assert forall|p: int|
                                0 <= p < n && visited@[p] == true && vis_entry[p]
                                    != true implies next@.contains(p as usize) by {
                                if p == g as int {
                                } else {
                                    assert(vis0[p] == true);
                                    assert(next0.contains(p as usize));
                                    let ix = choose|ix: int|
                                        0 <= ix < next0.len() && next0[ix] == p as usize;
                                    assert(next@[ix] == p as usize);
                                }
                            }
                            assert(expanded_except(heads@, visited@, frontier@, next@)) by {
                                assert forall|m: int, w: int|
                                    0 <= m < n && 0 <= w < n && visited@[m] == true
                                        && !frontier@.contains(m as usize) && !next@.contains(
                                        m as usize,
                                    ) && #[trigger] adjacent(heads@, m, w) implies visited@[w]
                                    == true by {
                                    assert(m != g as int);
                                    assert(vis0[m] == true);
                                    assert(!next0.contains(m as usize)) by {
                                        if next0.contains(m as usize) {
                                            let ix = choose|ix: int|
                                                0 <= ix < next0.len() && next0[ix] == m as usize;
                                            assert(next@[ix] == m as usize);
                                        }
                                    }
                                    assert(vis0[w] == true);
                                }
                            }
                            if config.use_root {
                                assert forall|m: int|
                                    0 <= m < n && visited@[m] == true && !frontier@.contains(
                                        m as usize,
                                    ) && !next@.contains(m as usize) && heads@[
                                    m
                                ] is None implies root_seen by {
                                    assert(m != g as int);
                                    assert(vis0[m] == true);
                                    assert(!next0.contains(m as usize)) by {
                                        if next0.contains(m as usize) {
                                            let ix = choose|ix: int|
                                                0 <= ix < next0.len() && next0[ix] == m as usize;
                                            assert(next@[ix] == m as usize);
                                        }
                                    }
                                }
                            }
                            assert forall|p: int|
                                0 <= p < n && (#[trigger] visited@[p]) == true && p
                                    != focus implies contexted(contexts@, p) by {
                                if p == g as int {
                                    assert(contexts@[contexts@.len() - 1].position == Some(g));
                                } else {
                                    lemma_contexted_push(
                                        ctx0,
                                        contexts@.last(),
                                        p,
                                    );
                                }
                            }
                            assert forall|k: int|
                                0 <= k < contexts@.len() && (
                                #[trigger] contexts@[k]).position is Some
                                    && !config.untyped implies typed_label_ok(
                                contexts@,
                                k,
                                tokens@,
                                heads@,
                                config.normalize,
                            ) by {
                                if k < ctx0.len() {
                                    lemma_typed_ok_push(
                                        ctx0,
                                        contexts@.last(),
                                        k,
                                        tokens@,
                                        heads@,
                                        config.normalize,
                                    );
                                } else {
                                    assert(contexts@[k].position == Some(g));
                                    assert(heads@[node as int] == Some(g));
                                    assert(contexts@[k].label@ == typed_label(
                                        tokens@,
                                        node as int,
                                        g as int,
                                        true,
                                        config.normalize,
                                    ));
                                }
                            }
                            if root_seen {
                                lemma_contexted_root_push(ctx0, contexts@.last());
                            }
                        }
                    }
                },
                None => {
                    if config.use_root && !root_seen {
                        root_seen = true;
                        let ghost ctx0 = contexts@;
                        contexts.push(
                            DepContext { position: None, label: String::from_str("ROOT") },
                        );
                        proof {
                            assert forall|p: int|
                                0 <= p < n && (#[trigger] visited@[p]) == true && p
                                    != focus implies contexted(contexts@, p) by {
                                lemma_contexted_push(ctx0, contexts@.last(), p);
                            }
                            assert(contexts@[contexts@.len() - 1].position is None);
                            assert(contexted_root(contexts@));
                            assert forall|k: int|
                                0 <= k < contexts@.len() && (
                                #[trigger] contexts@[k]).position is Some
                                    && !config.untyped implies typed_label_ok(
                                contexts@,
                                k,
                                tokens@,
                                heads@,
                                config.normalize,
                            ) by {
                                lemma_typed_ok_push(
                                    ctx0,
                                    contexts@.last(),
                                    k,
                                    tokens@,
                                    heads@,
                                    config.normalize,
                                );
                            }
                        }
                    }
                },
            }
            // the dependents of `node`
            let mut c: usize = 0;
            while c < n
                invariant
                    n == heads@.len(),
                    tokens@.len() == n,
                    focus < n,
                    node < n,
                    valid_heads(heads@),
                    visited@.len() == n,
                    visited@[focus as int] == true,
                    c <= n,
                    level < config.depth,
                    node == focus || within_depth(
                        heads@,
                        focus as int,
                        node as int,
                        level as int,
                    ),
                    forall|k: int| 0 <= k < next@.len() ==> (#[trigger] next@[k]) < n,
                    forall|k: int|
                        0 <= k < next@.len() ==> within_depth(
                            heads@,
                            focus as int,
                            (#[trigger] next@[k]) as int,
                            level as int + 1,
                        ),
                    forall|k: int|
                        0 <= k < contexts@.len() ==> (match (#[trigger] contexts@[k]).position {
                            Some(j) => j < n && j != focus && within_depth(
                                heads@,
                                focus as int,
                                j as int,
                                config.depth as int,
                            ),
                            None => config.use_root,
                        }),
                    forall|k: int|
                        0 <= k < contexts@.len() && (#[trigger] contexts@[k]).position is Some
                            && config.untyped && !config.normalize ==> contexts@[k].label@
                            == tokens@[contexts@[k].position.unwrap() as int].form@,
                    forall|k: int|
                        0 <= k < contexts@.len() && (#[trigger] contexts@[k]).position is Some
                            && config.untyped && config.normalize ==> contexts@[k].label@
                            == lower_of(tokens@[contexts@[k].position.unwrap() as int].form@),
                    forall|k: int|
                        0 <= k < contexts@.len() && (#[trigger] contexts@[k]).position is Some
                            ==> visited@[contexts@[k].position.unwrap() as int] == true,
                    forall|k: int|
                        0 <= k < contexts@.len() && (#[trigger] contexts@[k]).position is None
                            ==> root_seen,
                    forall|k1: int, k2: int|
                        0 <= k1 < k2 < contexts@.len() ==> (#[trigger] contexts@[k1]).position
                            != (#[trigger] contexts@[k2]).position,
                    forall|cp: int|
                        0 <= cp < c && (#[trigger] heads@[cp]) == Some(node) ==> visited@[cp]
                            == true,
                    (match heads@[node as int] {
                        Some(g) => visited@[g as int] == true,
                        None => true,
                    }),
                    level == 0 ==> node == focus,
                    level >= 1 || (level == 0 && f >= 1) ==> (forall|j: int|
                        0 <= j < n && #[trigger] adjacent(heads@, focus as int, j) ==> visited@[
                            j
                        ] == true),
                    forall|p: int|
                        0 <= p < n && (#[trigger] visited@[p]) == true && p != focus
                            ==> contexted(contexts@, p),
                    forall|k: int|
                        0 <= k < contexts@.len() && (#[trigger] contexts@[k]).position is Some
                            && !config.untyped ==> typed_label_ok(
                            contexts@,
                            k,
                            tokens@,
                            heads@,
                            config.normalize,
                        ),
                    root_seen ==> contexted_root(contexts@),
                    (level >= 1 || f >= 1) && config.use_root && heads@[focus as int] is None
                        ==> root_seen,
                    config.use_root && heads@[focus as int] is None && node == focus
                        ==> root_seen,
                    f < frontier@.len(),
                    node == frontier@[f as int],
                    vis_entry.len() == n,
                    forall|p: int| 0 <= p < n && vis_entry[p] == true ==> (
                    #[trigger] visited@[p]) == true,
                    forall|p: int|
                        0 <= p < n && (#[trigger] visited@[p]) == true && vis_entry[p] != true
                            ==> next@.contains(p as usize),
                    covered(heads@, focus as int, vis_entry, level as int),
                    expanded_except(heads@, vis_entry, frontier@, Seq::<usize>::empty()),
                    expanded_except(heads@, visited@, frontier@, next@),
                    nodes_expanded(heads@, visited@, frontier@, f as int),
                    config.use_root ==> forall|fp: int|
                        0 <= fp < f && fp < frontier@.len() && heads@[(
                        #[trigger] frontier@[fp]) as int] is None ==> root_seen,
                    config.use_root ==> forall|m: int|
                        0 <= m < n && (#[trigger] visited@[m]) == true && !frontier@.contains(
                            m as usize,
                        ) && !next@.contains(m as usize) && heads@[m] is None ==> root_seen,
                    config.use_root ==> forall|m: int|
                        0 <= m < n && vis_entry[m] == true && !frontier@.contains(m as usize)
                            && (#[trigger] heads@[m]) is None ==> root_seen,
                    config.use_root && heads@[node as int] is None ==> root_seen,
                decreases n - c,
            {
                let is_child = match heads[c] {
                    Some(hc) => hc == node,
                    None => false,
                };
                proof {
                    if visited@[c as int] && heads@[c as int] == Some(node) {
                    }
                }
                if is_child && !visited[c] {
                    proof {
                        assert(adjacent(heads@, node as int, c as int));
                        if node == focus {
                            assert(within_depth(heads@, focus as int, c as int, level as int + 1));
                        } else {
                            lemma_within_depth_step(
                                heads@,
                                focus as int,
                                node as int,
                                c as int,
                                level as int,
                            );
                        }
                        lemma_within_depth_monotone(
                            heads@,
                            focus as int,
                            c as int,
                            level as int + 1,
                            config.depth as int,
                        );
                    }
                    let lab = context_label(tokens, node, c, false, config);
                    let ghost ctx0 = contexts@;
                    let ghost vis0 = visited@;
                    let ghost next0 = next@;
                    contexts.push(DepContext { position: Some(c), label: lab });
                    let _ = set_visited(&mut visited, c);
                    next.push(c);
                    proof {
                        assert(next@[next@.len() - 1] == c);
                        assert(next@.contains(c));
                        assert forall|p: int|
                            0 <= p < n && visited@[p] == true && vis_entry[p]
                                != true implies next@.contains(p as usize) by {
                            if p == c as int {
                            } else {
                                assert(vis0[p] == true);
                                assert(next0.contains(p as usize));
                                let ix = choose|ix: int|
                                    0 <= ix < next0.len() && next0[ix] == p as usize;
                                assert(next@[ix] == p as usize);
                            }
                        }
                        assert(expanded_except(heads@, visited@, frontier@, next@)) by {
                            assert forall|m: int, w: int|
                                0 <= m < n && 0 <= w < n && visited@[m] == true
                                    && !frontier@.contains(m as usize) && !next@.contains(
                                    m as usize,
                                ) && #[trigger] adjacent(heads@, m, w) implies visited@[w]
                                == true by {
                                assert(m != c as int);
                                assert(vis0[m] == true);
                                assert(!next0.contains(m as usize)) by {
                                    if next0.contains(m as usize) {
                                        let ix = choose|ix: int|
                                            0 <= ix < next0.len() && next0[ix] == m as usize;
                                        assert(next@[ix] == m as usize);
                                    }
                                }
                                assert(vis0[w] == true);
                            }
                        }
                        if config.use_root {
                            assert forall|m: int|
                                0 <= m < n && visited@[m] == true && !frontier@.contains(
                                    m as usize,
                                ) && !next@.contains(m as usize) && heads@[
                                m
                            ] is None implies root_seen by {
                                assert(m != c as int);
                                assert(vis0[m] == true);
                                assert(!next0.contains(m as usize)) by {
                                    if next0.contains(m as usize) {
                                        let ix = choose|ix: int|
                                            0 <= ix < next0.len() && next0[ix] == m as usize;
                                        assert(next@[ix] == m as usize);
                                    }
                                }
                            }
                        }
                        assert forall|p: int|
                            0 <= p < n && (#[trigger] visited@[p]) == true && p != focus implies contexted(
                            contexts@,
                            p,
                        ) by {
                            if p == c as int {
                                assert(contexts@[contexts@.len() - 1].position == Some(c));
                            } else {
                                lemma_contexted_push(ctx0, contexts@.last(), p);
                            }
                        }
                        assert forall|k: int|
                            0 <= k < contexts@.len() && (#[trigger] contexts@[k]).position is Some
                                && !config.untyped implies typed_label_ok(
                            contexts@,
                            k,
                            tokens@,
                            heads@,
                            config.normalize,
                        ) by {
                            if k < ctx0.len() {
                                lemma_typed_ok_push(
                                    ctx0,
                                    contexts@.last(),
                                    k,
                                    tokens@,
                                    heads@,
                                    config.normalize,
                                );
                            } else {
                                assert(contexts@[k].position == Some(c));
                                assert(heads@[c as int] == Some(node));
                                assert(contexts@[k].label@ == typed_label(
                                    tokens@,
                                    node as int,
                                    c as int,
                                    false,
                                    config.normalize,
                                ));
                            }
                        }
                        if root_seen {
                            lemma_contexted_root_push(ctx0, contexts@.last());
                        }
                    }
                }
                c = c + 1;
            }
            proof {
                assert forall|w: int|
                    0 <= w < n && #[trigger] adjacent(heads@, node as int, w) implies visited@[w]
                    == true by {
                    if heads@[node as int] == Some(w as usize) {
                    } else {
                        assert(heads@[w] == Some(node));
                    }
                }
                assert(nodes_expanded(heads@, visited@, frontier@, f as int + 1)) by {
                    assert forall|fp: int, w: int|
                        0 <= fp < f as int + 1 && fp < frontier@.len() && 0 <= w < n
                            && #[trigger] adjacent(
                            heads@,
                            frontier@[fp] as int,
                            w,
                        ) implies visited@[w] == true by {
                        if fp == f as int {
                            assert(frontier@[fp] == node);
                        }
                    }
                }
                if config.use_root {
                    assert forall|fp: int|
                        0 <= fp < f as int + 1 && fp < frontier@.len() && heads@[(
                        #[trigger] frontier@[fp]) as int] is None implies root_seen by {
                        if fp == f as int {
                            assert(frontier@[fp] == node);
                        }
                    }
                }
                if level == 0 {
                    assert forall|j: int|
                        0 <= j < n && #[trigger] adjacent(heads@, focus as int, j) implies visited@[
                        j
                    ] == true by {
                        if heads@[focus as int] == Some(j as usize) {
                        } else {
                            assert(heads@[j] == Some(focus));
                        }
                    }
                }
            }
            f = f + 1;
        }
        proof {
            assert forall|j: int|
                0 <= j < n && within_depth(
                    heads@,
                    focus as int,
                    j,
                    level as int + 1,
                ) implies visited@[j] == true by {
                lemma_within_last_step(heads@, focus as int, j, level as int + 1);
                if adjacent(heads@, focus as int, j) {
                } else {
                    let m = choose|m: int|
                        0 <= m < heads@.len() && within_depth(heads@, focus as int, m, level as int)
                            && #[trigger] adjacent(heads@, m, j);
                    assert(vis_entry[m] == true);
                    if frontier@.contains(m as usize) {
                        let fp = choose|fp: int|
                            0 <= fp < frontier@.len() && frontier@[fp] == m as usize;
                        assert(adjacent(heads@, frontier@[fp] as int, j));
                    } else {
                        assert(!Seq::<usize>::empty().contains(m as usize));
                        assert(vis_entry[j] == true);
                    }
                }
            }
            if config.use_root {
                assert forall|m: int|
                    0 <= m < n && (#[trigger] heads@[m]) is None && within_depth(
                        heads@,
                        focus as int,
                        m,
                        level as int,
                    ) implies root_seen by {
                    assert(vis_entry[m] == true);
                    if frontier@.contains(m as usize) {
                        let fp = choose|fp: int|
                            0 <= fp < frontier@.len() && frontier@[fp] == m as usize;
                        assert(heads@[frontier@[fp] as int] is None);
                    } else {
                        assert(!Seq::<usize>::empty().contains(m as usize));
                    }
                }
                assert forall|m: int|
                    0 <= m < n && (#[trigger] visited@[m]) == true && !next@.contains(m as usize)
                        && heads@[m] is None implies root_seen by {
                    if vis_entry[m] == true {
                        if frontier@.contains(m as usize) {
                            let fp = choose|fp: int|
                                0 <= fp < frontier@.len() && frontier@[fp] == m as usize;
                            assert(heads@[frontier@[fp] as int] is None);
                        } else {
                            assert(!Seq::<usize>::empty().contains(m as usize));
                        }
                    } else {
                        assert(next@.contains(m as usize));
                    }
                }
            }
            assert(expanded_except(heads@, visited@, next@, Seq::<usize>::empty())) by {
                assert forall|m: int, w: int|
                    0 <= m < n && 0 <= w < n && visited@[m] == true && !next@.contains(m as usize)
                        && !Seq::<usize>::empty().contains(m as usize) && #[trigger] adjacent(
                        heads@,
                        m,
                        w,
                    ) implies visited@[w] == true by {
                    if vis_entry[m] == true {
                        if frontier@.contains(m as usize) {
                            let fp = choose|fp: int|
                                0 <= fp < frontier@.len() && frontier@[fp] == m as usize;
                            assert(adjacent(heads@, frontier@[fp] as int, w));
                        } else {
                            assert(!Seq::<usize>::empty().contains(m as usize));
                            assert(vis_entry[w] == true);
                        }
                    } else {
                        assert(next@.contains(m as usize));
                    }
                }
            }
        }
        frontier = next;
        level = level + 1;
    }
    proof {
        assert(level >= 1);
        assert(level == config.depth);
        assert forall|j: int|
            0 <= j < heads@.len() && #[trigger] adjacent(heads@, focus as int, j) implies contexted(
            contexts@,
            j,
        ) by {
            assert(visited@[j] == true);
            assert(j != focus);
        }
        if config.use_root && heads@[focus as int] is None {
            assert(root_seen);
        }
        if config.use_root {
            assert forall|m: int|
                0 <= m < heads@.len() && (#[trigger] heads@[m]) is None && within_depth(
                    heads@,
                    focus as int,
                    m,
                    config.depth as int - 1,
                ) implies contexted_root(contexts@) by {
                assert(root_seen);
            }
        }
        assert forall|j: int|
            0 <= j < heads@.len() && j != focus && within_depth(
                heads@,
                focus as int,
                j,
                config.depth as int,
            ) implies contexted(contexts@, j) by {
            assert(visited@[j] == true);
        }
    }
    contexts
}

/// Extending a path within the depth bound by one arc.
pub proof fn lemma_within_depth_step(heads: Seq<Option<usize>>, a: int, m: int, b: int, d: int)
    requires
        within_depth(heads, a, m, d),
        adjacent(heads, m, b),
        0 <= m < heads.len(),
    ensures
        within_depth(heads, a, b, d + 1),
    decreases d,
{
    if d > 0 {
        if adjacent(heads, a, m) {
            assert(within_depth(heads, m, b, d)) by {
                lemma_within_depth_monotone(heads, m, b, 1, d);
            }
        } else {
            let w = choose|w: int|
                0 <= w < heads.len() && #[trigger] adjacent(heads, a, w) && within_depth(
                    heads,
                    w,
                    m,
                    d - 1,
                );
            lemma_within_depth_step(heads, w, m, b, d - 1);
        }
    }
}

/// Mark a position visited, reporting whether it was new.
fn set_visited(visited: &mut Vec<bool>, i: usize) -> (r: bool)
    requires
        i < old(visited)@.len(),
    ensures
        final(visited)@.len() == old(visited)@.len(),
        final(visited)@[i as int] == true,
        forall|k: int|
            0 <= k < old(visited)@.len() && k != i ==> final(visited)@[k] == old(visited)@[k],
{
    let r = !visited[i];
    visited[i] = true;
    r
}

/// The label of a context token: its form (lowercased when
/// `normalize` is set), prefixed by the traversed relation when
/// typed contexts are extracted. An upward arc is marked as inverse.
fn context_label(
    tokens: &Vec<DepToken>,
    node: usize,
    ctx: usize,
    upward: bool,
    config: DepembedsConfig,
) -> (r: String)
    requires
        node < tokens@.len(),
        ctx < tokens@.len(),
    ensures
        config.untyped && !config.normalize ==> r@ == tokens@[ctx as int].form@,
        config.untyped && config.normalize ==> r@ == lower_of(tokens@[ctx as int].form@),
        !config.untyped ==> r@ == typed_label(
            tokens@,
            node as int,
            ctx as int,
            upward,
            config.normalize,
        ),
{
    let form: String = if config.normalize {
        lowercase(tokens[ctx].form.as_str())
    } else {
        String::from_str(tokens[ctx].form.as_str())
    };
    if config.untyped {
        form
    } else {
        // typed: relation path, inverse marker for the upward arc,
        // then the form
        let mut lab = String::new();
        if upward {
            lab.append(tokens[node].relation.as_str());
            lab.append("-1");
        } else {
            lab.append(tokens[ctx].relation.as_str());
        }
        lab.append("/");
        lab.append(form.as_str());
        lab
    }
}

} // verus!
