//! The MENACE-style learning strategies. A learner keeps one `Bag` of
//! weighted move counts per decision state, drawn lazily on first visit,
//! together with a log of the moves made in the game in progress; when a
//! game ends, every logged move is rewarded or penalized according to the
//! outcome, and the log is cleared.
//!
//! In specifications the bag store is modelled as a `Map` from a state key's
//! view to the bag's counts, and the log as a sequence of key/choice pairs.

use vstd::prelude::*;

use crate::bag::{apply_outcome, Bag, INITIAL_COUNT, MAX_BAG_SIZE};
use crate::graph::Graph;
use crate::util::{copy_usize_vec, spec_pow, vec_usize_eq};

verus! {

/// The decision states of a MENACE cop: `None` is the one placement state,
/// before any token stands on the board; `Some((cop_positions,
/// robber_position))` is a mid-game state.
pub type CopStateKey = Option<(Vec<usize>, usize)>;

/// The decision states of a MENACE robber: `(cop_positions, None)` is a
/// placement state, `(cop_positions, Some(robber_position))` a mid-game one.
pub type RobberStateKey = (Vec<usize>, Option<usize>);

/// The mathematical view of a cop state key.
pub open spec fn cop_key_view(k: CopStateKey) -> Option<(Seq<usize>, usize)> {
    match k {
        None => None,
        Some(p) => Some((p.0@, p.1)),
    }
}

/// The mathematical view of a robber state key.
pub open spec fn robber_key_view(k: RobberStateKey) -> (Seq<usize>, Option<usize>) {
    (k.0@, k.1)
}

/// The map a bag store stands for: each stored key's view maps to that
/// bag's counts.
pub open spec fn bag_table<K, V>(s: Seq<(K, Bag)>, kv: spec_fn(K) -> V) -> Map<V, Seq<u32>>
    decreases s.len(),
{
    if s.len() == 0 {
        Map::empty()
    } else {
        bag_table(s.drop_last(), kv).insert(kv(s.last().0), s.last().1@)
    }
}

/// No two stored entries stand for the same state.
pub open spec fn distinct_keys<K, V>(s: Seq<(K, Bag)>, kv: spec_fn(K) -> V) -> bool {
    forall|i: int, j: int| 0 <= i < j < s.len() ==> kv(#[trigger] s[i].0) != kv(#[trigger] s[j].0)
}

/// Every stored bag is well-formed.
pub open spec fn bags_wf<K>(s: Seq<(K, Bag)>) -> bool {
    forall|i: int| 0 <= i < s.len() ==> (#[trigger] s[i].1).wf()
}

/// A key's view is in the table exactly when some entry holds that key.
pub proof fn lemma_bag_table_dom<K, V>(s: Seq<(K, Bag)>, kv: spec_fn(K) -> V, key: V)
    ensures
        bag_table(s, kv).dom().contains(key) <==> exists|i: int|
            0 <= i < s.len() && kv(#[trigger] s[i].0) == key,
    decreases s.len(),
{
    if s.len() > 0 {
        lemma_bag_table_dom(s.drop_last(), kv, key);
        if kv(s.last().0) == key {
            assert(kv(s[s.len() - 1].0) == key);
        } else if bag_table(s, kv).dom().contains(key) {
            let i = choose|i: int| 0 <= i < s.drop_last().len() && kv(#[trigger] s.drop_last()[i].0) == key;
            assert(kv(s[i].0) == key);
        } else {
            assert forall|i: int| 0 <= i < s.len() implies kv(#[trigger] s[i].0) != key by {
                if i < s.len() - 1 {
                    assert(kv(s.drop_last()[i].0) != key);
                }
            }
        }
    }
}

/// With distinct keys, the table maps an entry's key view to that entry's
/// counts.
pub proof fn lemma_bag_table_at<K, V>(s: Seq<(K, Bag)>, kv: spec_fn(K) -> V, i: int)
    requires
        distinct_keys(s, kv),
        0 <= i < s.len(),
    ensures
        bag_table(s, kv).dom().contains(kv(s[i].0)),
        bag_table(s, kv)[kv(s[i].0)] == s[i].1@,
    decreases s.len(),
{
    if i < s.len() - 1 {
        assert(distinct_keys(s.drop_last(), kv)) by {
            assert forall|p: int, q: int| 0 <= p < q < s.drop_last().len() implies kv(
                #[trigger] s.drop_last()[p].0,
            ) != kv(#[trigger] s.drop_last()[q].0) by {
                assert(kv(s[p].0) != kv(s[q].0));
            }
        }
        assert(s.drop_last()[i] == s[i]);
        lemma_bag_table_at(s.drop_last(), kv, i);
        assert(kv(s[i].0) != kv(s[s.len() - 1].0));
    }
}

/// Appending an entry inserts its key into the table.
pub proof fn lemma_bag_table_push<K, V>(s: Seq<(K, Bag)>, kv: spec_fn(K) -> V, p: (K, Bag))
    ensures
        bag_table(s.push(p), kv) == bag_table(s, kv).insert(kv(p.0), p.1@),
{
    assert(s.push(p).drop_last() =~= s);
    assert(s.push(p).last() == p);
}

/// Replacing an entry's bag, keeping a key with the same view, updates the
/// table at that key.
pub proof fn lemma_bag_table_update<K, V>(
    s: Seq<(K, Bag)>,
    kv: spec_fn(K) -> V,
    i: int,
    p: (K, Bag),
)
    requires
        distinct_keys(s, kv),
        0 <= i < s.len(),
        kv(p.0) == kv(s[i].0),
    ensures
        bag_table(s.update(i, p), kv) == bag_table(s, kv).insert(kv(s[i].0), p.1@),
    decreases s.len(),
{
    let t = s.update(i, p);
    if i == s.len() - 1 {
        assert(t.drop_last() =~= s.drop_last());
        assert(t.last() == p);
    } else {
        assert(distinct_keys(s.drop_last(), kv)) by {
            assert forall|a: int, b: int| 0 <= a < b < s.drop_last().len() implies kv(
                #[trigger] s.drop_last()[a].0,
            ) != kv(#[trigger] s.drop_last()[b].0) by {
                assert(kv(s[a].0) != kv(s[b].0));
            }
        }
        assert(s.drop_last()[i] == s[i]);
        lemma_bag_table_update(s.drop_last(), kv, i, p);
        assert(t.drop_last() =~= s.drop_last().update(i, p));
        assert(t.last() == s.last());
        assert(kv(s[i].0) != kv(s[s.len() - 1].0));
        assert(bag_table(t, kv) =~= bag_table(s, kv).insert(kv(s[i].0), p.1@));
    }
}

/// Whether two cop state keys name the same decision state.
fn cop_key_eq(a: &CopStateKey, b: &CopStateKey) -> (r: bool)
    ensures
        r == (cop_key_view(*a) == cop_key_view(*b)),
{
    match (a, b) {
        (None, None) => true,
        (Some(p), Some(q)) => {
            let same = vec_usize_eq(&p.0, &q.0) && p.1 == q.1;
            proof {
                if same {
                    assert(cop_key_view(*a) == cop_key_view(*b));
                }
            }
            same
        },
        _ => false,
    }
}

/// Whether two robber state keys name the same decision state.
fn robber_key_eq(a: &RobberStateKey, b: &RobberStateKey) -> (r: bool)
    ensures
        r == (robber_key_view(*a) == robber_key_view(*b)),
{
    let slot_same = match (&a.1, &b.1) {
        (None, None) => true,
        (Some(p), Some(q)) => *p == *q,
        _ => false,
    };
    let same = vec_usize_eq(&a.0, &b.0) && slot_same;
    proof {
        if same {
            assert(robber_key_view(*a) == robber_key_view(*b));
        }
    }
    same
}

/// The position of the entry holding `key`, if one does.
fn find_cop_bag(bags: &Vec<(CopStateKey, Bag)>, key: &CopStateKey) -> (r: Option<usize>)
    ensures
        match r {
            Some(i) => i < bags@.len() && cop_key_view(bags@[i as int].0) == cop_key_view(*key),
            None => forall|i: int|
                0 <= i < bags@.len() ==> cop_key_view(#[trigger] bags@[i].0) != cop_key_view(*key),
        },
{
    let mut i: usize = 0;
    while i < bags.len()
        invariant
            i <= bags@.len(),
            forall|k: int|
                0 <= k < i ==> cop_key_view(#[trigger] bags@[k].0) != cop_key_view(*key),
        decreases bags@.len() - i,
    {
        if cop_key_eq(&bags[i].0, key) {
            return Some(i);
        }
        i = i + 1;
    }
    None
}

/// The position of the entry holding `key`, if one does.
fn find_robber_bag(bags: &Vec<(RobberStateKey, Bag)>, key: &RobberStateKey) -> (r: Option<usize>)
    ensures
        match r {
            Some(i) => i < bags@.len() && robber_key_view(bags@[i as int].0) == robber_key_view(
                *key,
            ),
            None => forall|i: int|
                0 <= i < bags@.len() ==> robber_key_view(#[trigger] bags@[i].0)
                    != robber_key_view(*key),
        },
{
    let mut i: usize = 0;
    while i < bags.len()
        invariant
            i <= bags@.len(),
            forall|k: int|
                0 <= k < i ==> robber_key_view(#[trigger] bags@[k].0) != robber_key_view(*key),
        decreases bags@.len() - i,
    {
        if robber_key_eq(&bags[i].0, key) {
            return Some(i);
        }
        i = i + 1;
    }
    None
}

/// The placement bag of a MENACE cop offers one choice per way to put
/// `cops` tokens on `n` vertices.
pub open spec fn start_bag_size(n: int, cops: nat) -> nat {
    spec_pow(n as nat, cops)
}

/// A raised base raises the power.
pub proof fn lemma_pow_monotonic_exp(base: nat, i: nat, j: nat)
    requires
        base >= 1,
        i <= j,
    ensures
        spec_pow(base, i) <= spec_pow(base, j),
    decreases j - i,
{
    if i < j {
        lemma_pow_monotonic_exp(base, i, (j - 1) as nat);
        crate::util::lemma_pow_pos(base, (j - 1) as nat);
        assert(base * spec_pow(base, (j - 1) as nat) >= 1 * spec_pow(base, (j - 1) as nat))
            by (nonlinear_arith)
            requires
                base >= 1,
                spec_pow(base, (j - 1) as nat) >= 0,
        ;
    }
}

/// `n` to the power `cops`, computed by a loop.
fn start_bag_size_exec(n: usize, cops: u8) -> (size: usize)
    requires
        n >= 1,
        start_bag_size(n as int, cops as nat) <= MAX_BAG_SIZE,
    ensures
        size == start_bag_size(n as int, cops as nat),
{
    let mut size: usize = 1;
    let mut c: u8 = 0;
    while c < cops
        invariant
            n >= 1,
            c <= cops,
            size == spec_pow(n as nat, c as nat),
            spec_pow(n as nat, cops as nat) <= MAX_BAG_SIZE,
        decreases cops - c,
    {
        proof {
            lemma_pow_monotonic_exp(n as nat, (c + 1) as nat, cops as nat);
            assert(spec_pow(n as nat, (c + 1) as nat) == n * spec_pow(n as nat, c as nat));
            assert(n * spec_pow(n as nat, c as nat) == spec_pow(n as nat, c as nat) * n)
                by (nonlinear_arith);
        }
        size = size * n;
        c = c + 1;
    }
    size
}

/// Whether a MENACE cop's largest possible bag on this graph stays within
/// `MAX_BAG_SIZE`, decided by a capped power loop.
pub fn menace_cop_fits(graph: &Graph, number_of_cops: u8) -> (r: bool)
    requires
        graph.wf(),
    ensures
        r == (spec_pow((graph.vertex_count() + 1) as nat, number_of_cops as nat) <= MAX_BAG_SIZE),
{
    let base = graph.adjacency_list.len() + 1;
    let mut acc: u128 = 1;
    let mut c: u8 = 0;
    while c < number_of_cops
        invariant
            base == graph.vertex_count() + 1,
            base >= 2,
            c <= number_of_cops,
            acc == spec_pow(base as nat, c as nat),
            acc <= MAX_BAG_SIZE,
        decreases number_of_cops - c,
    {
        proof {
            assert(spec_pow(base as nat, (c + 1) as nat) == base * spec_pow(base as nat, c as nat));
            assert(base * spec_pow(base as nat, c as nat) == spec_pow(base as nat, c as nat)
                * base) by (nonlinear_arith);
            assert(acc * (base as u128) <= MAX_BAG_SIZE * (base as u128)) by (nonlinear_arith)
                requires
                    0 <= acc <= MAX_BAG_SIZE,
                    base >= 0,
            ;
        }
        let next = acc * (base as u128);
        if next > (MAX_BAG_SIZE as u128) {
            proof {
                lemma_pow_monotonic_exp(base as nat, (c + 1) as nat, number_of_cops as nat);
            }
            return false;
        }
        acc = next;
        c = c + 1;
    }
    true
}

/// The step bag of a MENACE cop offers one choice per combination of "stay
/// or move to which neighbour" over all cop tokens.
pub open spec fn step_bag_size(g: Graph, cpos: Seq<usize>) -> nat
    decreases cpos.len(),
{
    if cpos.len() == 0 {
        1
    } else {
        step_bag_size(g, cpos.drop_last()) * (g.nbrs(cpos.last() as int).len() + 1)
    }
}

pub proof fn lemma_step_bag_size_pos(g: Graph, cpos: Seq<usize>)
    ensures
        step_bag_size(g, cpos) >= 1,
    decreases cpos.len(),
{
    if cpos.len() > 0 {
        lemma_step_bag_size_pos(g, cpos.drop_last());
        assert(step_bag_size(g, cpos.drop_last()) * (g.nbrs(cpos.last() as int).len() + 1) >= 1)
            by (nonlinear_arith)
            requires
                step_bag_size(g, cpos.drop_last()) >= 1,
                g.nbrs(cpos.last() as int).len() + 1 >= 1,
        ;
    }
}

/// On a well-formed graph, the step bag over any valid cop positions is no
/// larger than the placement bound with base `vertex_count() + 1`.
pub proof fn lemma_step_bag_size_bounded(g: Graph, cpos: Seq<usize>)
    requires
        g.wf(),
        forall|i: int| 0 <= i < cpos.len() ==> g.valid_vertex(#[trigger] cpos[i] as int),
    ensures
        step_bag_size(g, cpos) <= spec_pow((g.vertex_count() + 1) as nat, cpos.len()),
    decreases cpos.len(),
{
    if cpos.len() > 0 {
        let rest = cpos.drop_last();
        assert(forall|i: int| 0 <= i < rest.len() ==> g.valid_vertex(#[trigger] rest[i] as int));
        lemma_step_bag_size_bounded(g, rest);
        assert(cpos[cpos.len() - 1] == cpos.last());
        g.lemma_degree_bounded(cpos.last() as int);
        lemma_step_bag_size_pos(g, rest);
        assert(step_bag_size(g, rest) * (g.nbrs(cpos.last() as int).len() + 1) <= spec_pow(
            (g.vertex_count() + 1) as nat,
            rest.len(),
        ) * ((g.vertex_count() + 1) as nat)) by (nonlinear_arith)
            requires
                0 <= step_bag_size(g, rest) <= spec_pow((g.vertex_count() + 1) as nat, rest.len()),
                0 <= g.nbrs(cpos.last() as int).len() + 1 <= (g.vertex_count() + 1) as nat,
        ;
        assert(spec_pow((g.vertex_count() + 1) as nat, cpos.len()) == ((g.vertex_count() + 1) as nat)
            * spec_pow((g.vertex_count() + 1) as nat, rest.len()));
        assert(spec_pow((g.vertex_count() + 1) as nat, rest.len()) * ((g.vertex_count() + 1) as nat)
            == ((g.vertex_count() + 1) as nat) * spec_pow((g.vertex_count() + 1) as nat, rest.len()))
            by (nonlinear_arith);
    }
}

/// A prefix of the positions never needs a larger bag than the whole.
pub proof fn lemma_step_bag_size_prefix(g: Graph, cpos: Seq<usize>, i: int)
    requires
        0 <= i <= cpos.len(),
    ensures
        step_bag_size(g, cpos.take(i)) <= step_bag_size(g, cpos),
    decreases cpos.len() - i,
{
    if i == cpos.len() {
        assert(cpos.take(i) =~= cpos);
    } else {
        lemma_step_bag_size_prefix(g, cpos, i + 1);
        assert(cpos.take(i + 1).drop_last() =~= cpos.take(i));
        assert(cpos.take(i + 1).last() == cpos[i]);
        lemma_step_bag_size_pos(g, cpos.take(i));
        assert(step_bag_size(g, cpos.take(i)) * (g.nbrs(cpos[i] as int).len() + 1)
            >= step_bag_size(g, cpos.take(i)) * 1) by (nonlinear_arith)
            requires
                step_bag_size(g, cpos.take(i)) >= 0,
                g.nbrs(cpos[i] as int).len() + 1 >= 1,
        ;
    }
}

/// The step bag size, computed by a loop.
fn step_bag_size_exec(graph: &Graph, cop_positions: &Vec<usize>) -> (size: usize)
    requires
        graph.wf(),
        forall|i: int|
            0 <= i < cop_positions@.len() ==> graph.valid_vertex(
                #[trigger] cop_positions@[i] as int,
            ),
        step_bag_size(*graph, cop_positions@) <= MAX_BAG_SIZE,
    ensures
        size == step_bag_size(*graph, cop_positions@),
{
    let mut size: usize = 1;
    let mut i: usize = 0;
    while i < cop_positions.len()
        invariant
            graph.wf(),
            forall|k: int|
                0 <= k < cop_positions@.len() ==> graph.valid_vertex(
                    #[trigger] cop_positions@[k] as int,
                ),
            step_bag_size(*graph, cop_positions@) <= MAX_BAG_SIZE,
            i <= cop_positions@.len(),
            size == step_bag_size(*graph, cop_positions@.take(i as int)),
        decreases cop_positions@.len() - i,
    {
        let cop_position = cop_positions[i];
        proof {
            graph.lemma_degree_bounded(cop_position as int);
            lemma_step_bag_size_prefix(*graph, cop_positions@, i + 1);
            assert(cop_positions@.take(i + 1 as int).drop_last() =~= cop_positions@.take(i as int));
            assert(cop_positions@.take(i + 1 as int).last() == cop_positions@[i as int]);
        }
        size = size * (graph.adjacency_list[cop_position].len() + 1);
        i = i + 1;
    }
    proof {
        assert(cop_positions@.take(cop_positions@.len() as int) =~= cop_positions@);
    }
    size
}

/// Decoding a placement choice: digit by digit in base `n`, one digit per
/// cop token.
pub open spec fn spec_decode_start(n: int, cops: nat, choice: int) -> Seq<usize>
    decreases cops,
{
    if cops == 0 {
        Seq::empty()
    } else {
        seq![(choice % n) as usize] + spec_decode_start(n, (cops - 1) as nat, choice / n)
    }
}

pub proof fn lemma_decode_start_valid(n: int, cops: nat, choice: int)
    requires
        n >= 1,
        choice >= 0,
    ensures
        spec_decode_start(n, cops, choice).len() == cops,
        forall|i: int|
            0 <= i < cops ==> (#[trigger] spec_decode_start(n, cops, choice)[i]) < n,
    decreases cops,
{
    if cops > 0 {
        lemma_decode_start_valid(n, (cops - 1) as nat, choice / n);
        assert forall|i: int| 0 <= i < cops implies (#[trigger] spec_decode_start(
            n,
            cops,
            choice,
        )[i]) < n by {
            if i > 0 {
                assert(spec_decode_start(n, cops, choice)[i] == spec_decode_start(
                    n,
                    (cops - 1) as nat,
                    choice / n,
                )[i - 1]);
            }
        }
    }
}

/// Decodes a placement choice into one vertex per cop token.
fn decode_start_positions(n: usize, cops: u8, choice: usize) -> (positions: Vec<usize>)
    requires
        n >= 1,
    ensures
        positions@ == spec_decode_start(n as int, cops as nat, choice as int),
        positions@.len() == cops,
        forall|i: int| 0 <= i < positions@.len() ==> (#[trigger] positions@[i]) < n,
{
    proof {
        lemma_decode_start_valid(n as int, cops as nat, choice as int);
    }
    let mut positions: Vec<usize> = Vec::new();
    let mut ch = choice;
    let mut c: u8 = 0;
    while c < cops
        invariant
            n >= 1,
            c <= cops,
            positions@.len() == c,
            positions@ + spec_decode_start(n as int, (cops - c) as nat, ch as int)
                == spec_decode_start(n as int, cops as nat, choice as int),
        decreases cops - c,
    {
        proof {
            assert(positions@ + spec_decode_start(n as int, ((cops - c) as nat), ch as int)
                =~= (positions@.push((ch % n) as usize)) + spec_decode_start(
                n as int,
                ((cops - c) as nat - 1) as nat,
                (ch / n) as int,
            ));
        }
        positions.push(ch % n);
        ch = ch / n;
        c = c + 1;
    }
    proof {
        assert(positions@ + spec_decode_start(n as int, 0, ch as int) =~= positions@);
    }
    positions
}

/// Decoding a move choice: digit by digit, the `i`-th digit in base
/// "number of neighbours of the `i`-th cop, plus one"; a digit equal to the
/// neighbour count means "stay", any smaller digit names the neighbour moved
/// to.
pub open spec fn spec_decode_cop_move(g: Graph, cpos: Seq<usize>, choice: int) -> Seq<usize>
    decreases cpos.len(),
{
    if cpos.len() == 0 {
        Seq::empty()
    } else {
        let d = g.nbrs(cpos[0] as int).len() as int;
        let k = choice % (d + 1);
        let v = if k == d {
            cpos[0]
        } else {
            g.nbrs(cpos[0] as int)[k]
        };
        seq![v] + spec_decode_cop_move(g, cpos.drop_first(), choice / (d + 1))
    }
}

pub proof fn lemma_decode_cop_move_valid(g: Graph, cpos: Seq<usize>, choice: int)
    requires
        g.wf(),
        choice >= 0,
        forall|i: int| 0 <= i < cpos.len() ==> g.valid_vertex(#[trigger] cpos[i] as int),
    ensures
        spec_decode_cop_move(g, cpos, choice).len() == cpos.len(),
        forall|i: int|
            0 <= i < cpos.len() ==> #[trigger] spec_decode_cop_move(g, cpos, choice)[i] == cpos[i]
                || g.nbrs(cpos[i] as int).contains(spec_decode_cop_move(g, cpos, choice)[i]),
        forall|i: int|
            0 <= i < cpos.len() ==> g.valid_vertex(
                #[trigger] spec_decode_cop_move(g, cpos, choice)[i] as int,
            ),
    decreases cpos.len(),
{
    if cpos.len() > 0 {
        let d = g.nbrs(cpos[0] as int).len() as int;
        let rest = cpos.drop_first();
        assert(forall|i: int| 0 <= i < rest.len() ==> g.valid_vertex(#[trigger] rest[i] as int));
        lemma_decode_cop_move_valid(g, rest, choice / (d + 1));
        let whole = spec_decode_cop_move(g, cpos, choice);
        let k = choice % (d + 1);
        assert(0 <= k <= d);
        if k < d {
            assert(g.nbrs(cpos[0] as int).contains(g.nbrs(cpos[0] as int)[k]));
        }
        assert forall|i: int| 0 <= i < cpos.len() implies #[trigger] whole[i] == cpos[i] || g.nbrs(
            cpos[i] as int,
        ).contains(whole[i]) by {
            if i > 0 {
                assert(whole[i] == spec_decode_cop_move(g, rest, choice / (d + 1))[i - 1]);
                assert(rest[i - 1] == cpos[i]);
            }
        }
        assert forall|i: int| 0 <= i < cpos.len() implies g.valid_vertex(
            #[trigger] whole[i] as int,
        ) by {
            if i > 0 {
                assert(whole[i] == spec_decode_cop_move(g, rest, choice / (d + 1))[i - 1]);
            }
        }
    }
}

/// Decodes a move choice into one vertex per cop token.
fn decode_cop_move(graph: &Graph, cop_positions: &Vec<usize>, choice: usize) -> (positions: Vec<
    usize,
>)
    requires
        graph.wf(),
        forall|i: int|
            0 <= i < cop_positions@.len() ==> graph.valid_vertex(
                #[trigger] cop_positions@[i] as int,
            ),
    ensures
        positions@ == spec_decode_cop_move(*graph, cop_positions@, choice as int),
{
    let mut positions: Vec<usize> = Vec::new();
    let mut ch = choice;
    let mut i: usize = 0;
    proof {
        assert(cop_positions@.skip(0) =~= cop_positions@);
        assert(Seq::<usize>::empty() + spec_decode_cop_move(*graph, cop_positions@, choice as int)
            =~= spec_decode_cop_move(*graph, cop_positions@, choice as int));
    }
    while i < cop_positions.len()
        invariant
            graph.wf(),
            forall|k: int|
                0 <= k < cop_positions@.len() ==> graph.valid_vertex(
                    #[trigger] cop_positions@[k] as int,
                ),
            i <= cop_positions@.len(),
            positions@.len() == i,
            positions@ + spec_decode_cop_move(*graph, cop_positions@.skip(i as int), ch as int)
                == spec_decode_cop_move(*graph, cop_positions@, choice as int),
        decreases cop_positions@.len() - i,
    {
        let cop_position = cop_positions[i];
        let neighbours = &graph.adjacency_list[cop_position];
        proof {
            graph.lemma_degree_bounded(cop_position as int);
            let tail = cop_positions@.skip(i as int);
            assert(tail[0] == cop_positions@[i as int]);
            assert(tail.drop_first() =~= cop_positions@.skip(i + 1 as int));
            let d = graph.nbrs(cop_position as int).len() as int;
            let k = (ch as int) % (d + 1);
            let v = if k == d {
                cop_position
            } else {
                graph.nbrs(cop_position as int)[k]
            };
            assert(positions@ + spec_decode_cop_move(*graph, tail, ch as int) =~= (
            positions@.push(v)) + spec_decode_cop_move(
                *graph,
                cop_positions@.skip(i + 1 as int),
                (ch as int) / (d + 1),
            ));
        }
        let new_cop_position = ch % (neighbours.len() + 1);
        if new_cop_position == neighbours.len() {
            positions.push(cop_position);
        } else {
            positions.push(neighbours[new_cop_position]);
        }
        ch = ch / (neighbours.len() + 1);
        i = i + 1;
    }
    proof {
        assert(cop_positions@.skip(cop_positions@.len() as int) =~= Seq::<usize>::empty());
        assert(positions@ + Seq::<usize>::empty() =~= positions@);
    }
    positions
}

/// What a finished game does to the bag store: every logged move's bag is
/// rewarded or penalized at the logged choice, in log order.
pub open spec fn spec_apply_log<V>(
    table: Map<V, Seq<u32>>,
    log: Seq<(V, int)>,
    won: bool,
) -> Map<V, Seq<u32>>
    decreases log.len(),
{
    if log.len() == 0 {
        table
    } else {
        let k = log[0].0;
        let t1 = if table.dom().contains(k) {
            table.insert(k, apply_outcome(table[k], log[0].1, won))
        } else {
            table
        };
        spec_apply_log(t1, log.drop_first(), won)
    }
}

/// Applying a log extended by one move applies that move last.
pub proof fn lemma_apply_log_push<V>(
    table: Map<V, Seq<u32>>,
    log: Seq<(V, int)>,
    m: (V, int),
    won: bool,
)
    ensures
        spec_apply_log(table, log.push(m), won) == {
            let t = spec_apply_log(table, log, won);
            if t.dom().contains(m.0) {
                t.insert(m.0, apply_outcome(t[m.0], m.1, won))
            } else {
                t
            }
        },
    decreases log.len(),
{
    assert(log.push(m)[0] == if log.len() == 0 { m } else { log[0] });
    if log.len() == 0 {
        assert(log.push(m).drop_first() =~= Seq::<(V, int)>::empty());
        let t1 = if table.dom().contains(m.0) {
            table.insert(m.0, apply_outcome(table[m.0], m.1, won))
        } else {
            table
        };
        assert(spec_apply_log(table, log.push(m), won) == spec_apply_log(
            t1,
            log.push(m).drop_first(),
            won,
        ));
        assert(spec_apply_log(t1, log.push(m).drop_first(), won) == t1);
        assert(spec_apply_log(table, log, won) == table);
    } else {
        let k = log[0].0;
        let t1 = if table.dom().contains(k) {
            table.insert(k, apply_outcome(table[k], log[0].1, won))
        } else {
            table
        };
        assert(log.push(m).drop_first() =~= log.drop_first().push(m));
        lemma_apply_log_push(t1, log.drop_first(), m, won);
        assert(spec_apply_log(table, log.push(m), won) == spec_apply_log(
            t1,
            log.drop_first().push(m),
            won,
        ));
        assert(spec_apply_log(table, log, won) == spec_apply_log(t1, log.drop_first(), won));
    }
}

/// Applying a log never changes which states are stored nor how many
/// choices each state offers.
pub proof fn lemma_apply_log_preserves<V>(table: Map<V, Seq<u32>>, log: Seq<(V, int)>, won: bool)
    ensures
        spec_apply_log(table, log, won).dom() == table.dom(),
        forall|k: V|
            table.dom().contains(k) ==> #[trigger] spec_apply_log(table, log, won)[k].len()
                == table[k].len(),
    decreases log.len(),
{
    if log.len() > 0 {
        let k = log[0].0;
        let t1 = if table.dom().contains(k) {
            table.insert(k, apply_outcome(table[k], log[0].1, won))
        } else {
            table
        };
        assert(t1.dom() =~= table.dom());
        lemma_apply_log_preserves(t1, log.drop_first(), won);
        assert(spec_apply_log(table, log, won) == spec_apply_log(t1, log.drop_first(), won));
        assert forall|q: V| table.dom().contains(q) implies #[trigger] spec_apply_log(
            table,
            log,
            won,
        )[q].len() == table[q].len() by {
            assert(t1.dom().contains(q));
            assert(spec_apply_log(t1, log.drop_first(), won)[q].len() == t1[q].len());
            assert(t1[q].len() == table[q].len());
        }
    }
}

/// A mutable borrow of the bag stored at `i`.
fn bag_at_mut<K>(bags: &mut Vec<(K, Bag)>, i: usize) -> (b: &mut Bag)
    requires
        i < old(bags)@.len(),
    ensures
        *b == old(bags)@[i as int].1,
        final(bags)@ == old(bags)@.update(i as int, (old(bags)@[i as int].0, *final(b))),
{
    &mut bags[i].1
}

/// The view function of cop state keys, as one shared term.
pub open spec fn cop_kv() -> spec_fn(CopStateKey) -> Option<(Seq<usize>, usize)> {
    |k: CopStateKey| cop_key_view(k)
}

/// The view function of robber state keys, as one shared term.
pub open spec fn robber_kv() -> spec_fn(RobberStateKey) -> (Seq<usize>, Option<usize>) {
    |k: RobberStateKey| robber_key_view(k)
}

/// Finds the bag stored for `key`, creating a fresh one of `size` choices if
/// the state has not been visited, and returns its position.
fn ensure_cop_bag(bags: &mut Vec<(CopStateKey, Bag)>, key: CopStateKey, size: usize) -> (i: usize)
    requires
        distinct_keys(old(bags)@, cop_kv()),
        bags_wf(old(bags)@),
        1 <= size <= MAX_BAG_SIZE,
    ensures
        distinct_keys(final(bags)@, cop_kv()),
        bags_wf(final(bags)@),
        i < final(bags)@.len(),
        cop_key_view(final(bags)@[i as int].0) == cop_key_view(key),
        bag_table(old(bags)@, cop_kv()).dom().contains(cop_key_view(key)) ==> final(bags)@ == old(
            bags,
        )@,
        !bag_table(old(bags)@, cop_kv()).dom().contains(cop_key_view(key)) ==> bag_table(
            final(bags)@,
            cop_kv(),
        ) == bag_table(old(bags)@, cop_kv()).insert(
            cop_key_view(key),
            Seq::new(size as nat, |k: int| INITIAL_COUNT),
        ),
{
    proof {
        lemma_bag_table_dom(bags@, cop_kv(), cop_key_view(key));
    }
    match find_cop_bag(bags, &key) {
        Some(i) => i,
        None => {
            let bag = Bag::new(size);
            proof {
                lemma_bag_table_push(bags@, cop_kv(), (key, bag));
            }
            let ghost prev = bags@;
            bags.push((key, bag));
            proof {
                assert forall|a: int, b: int| 0 <= a < b < bags@.len() implies cop_kv()(
                    #[trigger] bags@[a].0,
                ) != cop_kv()(#[trigger] bags@[b].0) by {
                    if b < prev.len() {
                        assert(cop_kv()(prev[a].0) != cop_kv()(prev[b].0));
                    } else {
                        assert(cop_key_view(prev[a].0) != cop_key_view(key));
                    }
                }
                assert forall|a: int| 0 <= a < bags@.len() implies (#[trigger] bags@[a].1).wf() by {
                    if a < prev.len() {
                        assert(prev[a].1.wf());
                    }
                }
            }
            bags.len() - 1
        },
    }
}

/// Finds the bag stored for `key`, creating a fresh one of `size` choices if
/// the state has not been visited, and returns its position.
fn ensure_robber_bag(
    bags: &mut Vec<(RobberStateKey, Bag)>,
    key: RobberStateKey,
    size: usize,
) -> (i: usize)
    requires
        distinct_keys(old(bags)@, robber_kv()),
        bags_wf(old(bags)@),
        1 <= size <= MAX_BAG_SIZE,
    ensures
        distinct_keys(final(bags)@, robber_kv()),
        bags_wf(final(bags)@),
        i < final(bags)@.len(),
        robber_key_view(final(bags)@[i as int].0) == robber_key_view(key),
        bag_table(old(bags)@, robber_kv()).dom().contains(robber_key_view(key)) ==> final(bags)@
            == old(bags)@,
        !bag_table(old(bags)@, robber_kv()).dom().contains(robber_key_view(key)) ==> bag_table(
            final(bags)@,
            robber_kv(),
        ) == bag_table(old(bags)@, robber_kv()).insert(
            robber_key_view(key),
            Seq::new(size as nat, |k: int| INITIAL_COUNT),
        ),
{
    proof {
        lemma_bag_table_dom(bags@, robber_kv(), robber_key_view(key));
    }
    match find_robber_bag(bags, &key) {
        Some(i) => i,
        None => {
            let bag = Bag::new(size);
            proof {
                lemma_bag_table_push(bags@, robber_kv(), (key, bag));
            }
            let ghost prev = bags@;
            bags.push((key, bag));
            proof {
                assert forall|a: int, b: int| 0 <= a < b < bags@.len() implies robber_kv()(
                    #[trigger] bags@[a].0,
                ) != robber_kv()(#[trigger] bags@[b].0) by {
                    if b < prev.len() {
                        assert(robber_kv()(prev[a].0) != robber_kv()(prev[b].0));
                    } else {
                        assert(robber_key_view(prev[a].0) != robber_key_view(key));
                    }
                }
                assert forall|a: int| 0 <= a < bags@.len() implies (#[trigger] bags@[a].1).wf() by {
                    if a < prev.len() {
                        assert(prev[a].1.wf());
                    }
                }
            }
            bags.len() - 1
        },
    }
}

/// A cop player that learns: one bag per decision state, and a log of the
/// game in progress.
pub struct MenaceCop {
    number_of_cops: u8,
    bags: Vec<(CopStateKey, Bag)>,
    moves: Vec<(CopStateKey, usize)>,
}

impl MenaceCop {
    /// How many cop tokens this player controls.
    pub closed spec fn cop_count(&self) -> u8 {
        self.number_of_cops
    }

    /// The bag store, as the map from a state to its counts.
    pub closed spec fn table(&self) -> Map<Option<(Seq<usize>, usize)>, Seq<u32>> {
        bag_table(self.bags@, cop_kv())
    }

    /// The moves logged in the game in progress, in order.
    pub closed spec fn log(&self) -> Seq<(Option<(Seq<usize>, usize)>, int)> {
        Seq::new(
            self.moves@.len(),
            |i: int| (cop_key_view(self.moves@[i].0), self.moves@[i].1 as int),
        )
    }

    /// Well-formed: stored states are distinct, every bag is well-formed,
    /// and every logged move names a stored state and a choice its bag
    /// offers.
    pub closed spec fn wf(&self) -> bool {
        &&& distinct_keys(self.bags@, cop_kv())
        &&& bags_wf(self.bags@)
        &&& forall|i: int|
            0 <= i < self.log().len() ==> {
                &&& self.table().dom().contains((#[trigger] self.log()[i]).0)
                &&& 0 <= self.log()[i].1 < self.table()[self.log()[i].0].len()
            }
    }

    pub fn new(number_of_cops: u8) -> (c: MenaceCop)
        ensures
            c.cop_count() == number_of_cops,
            c.wf(),
            c.table() == Map::<Option<(Seq<usize>, usize)>, Seq<u32>>::empty(),
            c.log() == Seq::<(Option<(Seq<usize>, usize)>, int)>::empty(),
    {
        let c = MenaceCop { number_of_cops, bags: Vec::new(), moves: Vec::new() };
        proof {
            assert(c.log() =~= Seq::<(Option<(Seq<usize>, usize)>, int)>::empty());
        }
        c
    }

    /// How many choices the placement bag offers, or will offer when it is
    /// first visited.
    pub open spec fn start_bag_len(&self, g: Graph) -> int {
        if self.table().dom().contains(None::<(Seq<usize>, usize)>) {
            self.table()[None::<(Seq<usize>, usize)>].len() as int
        } else {
            start_bag_size(g.vertex_count(), self.cop_count() as nat) as int
        }
    }

    /// How many choices the step bag at this state offers, or will offer
    /// when it is first visited.
    pub open spec fn step_bag_len(&self, g: Graph, cpos: Seq<usize>, rpos: usize) -> int {
        if self.table().dom().contains(Some((cpos, rpos))) {
            self.table()[Some((cpos, rpos))].len() as int
        } else {
            step_bag_size(g, cpos) as int
        }
    }

    /// Places the cops as `choice` says, after looking up (or creating) the
    /// placement bag and logging the move. `start` draws the choice from the
    /// bag; taking it as an argument lets a deterministic caller drive the
    /// learner.
    pub fn start_with_choice(&mut self, graph: &Graph, choice: usize) -> (positions: Vec<usize>)
        requires
            old(self).wf(),
            graph.wf(),
            start_bag_size(graph.vertex_count(), old(self).cop_count() as nat) <= MAX_BAG_SIZE,
            choice < old(self).start_bag_len(*graph),
        ensures
            final(self).wf(),
            final(self).cop_count() == old(self).cop_count(),
            old(self).table().dom().contains(None::<(Seq<usize>, usize)>) ==> final(self).table() == old(
                self,
            ).table(),
            !old(self).table().dom().contains(None::<(Seq<usize>, usize)>) ==> final(self).table() == old(
                self,
            ).table().insert(
                None::<(Seq<usize>, usize)>,
                Seq::new(
                    start_bag_size(graph.vertex_count(), old(self).cop_count() as nat),
                    |k: int| INITIAL_COUNT,
                ),
            ),
            final(self).log() == old(self).log().push((None::<(Seq<usize>, usize)>, choice as int)),
            positions@ == spec_decode_start(
                graph.vertex_count(),
                old(self).cop_count() as nat,
                choice as int,
            ),
            positions@.len() == old(self).cop_count(),
            forall|i: int|
                0 <= i < positions@.len() ==> graph.valid_vertex(#[trigger] positions@[i] as int),
    {
        let n = graph.adjacency_list.len();
        proof {
            crate::util::lemma_pow_pos(n as nat, self.number_of_cops as nat);
        }
        let size = start_bag_size_exec(n, self.number_of_cops);
        let ghost prev = *self;
        let i = ensure_cop_bag(&mut self.bags, None, size);
        proof {
            lemma_bag_table_at(self.bags@, cop_kv(), i as int);
        }
        let ghost mid = *self;
        self.moves.push((None, choice));
        proof {
            assert(self.log() =~= mid.log().push((None::<(Seq<usize>, usize)>, choice as int)));
            assert(mid.log() =~= prev.log());
            assert(self.table() == mid.table());
            assert forall|k: int| 0 <= k < self.log().len() implies {
                &&& self.table().dom().contains((#[trigger] self.log()[k]).0)
                &&& 0 <= self.log()[k].1 < self.table()[self.log()[k].0].len()
            } by {
                if k < prev.log().len() {
                    assert(prev.log()[k] == self.log()[k]);
                    assert(prev.table().dom().contains(prev.log()[k].0));
                    if !prev.table().dom().contains(None::<(Seq<usize>, usize)>) {
                        assert(self.table() == prev.table().insert(
                            None::<(Seq<usize>, usize)>,
                            Seq::new(size as nat, |q: int| INITIAL_COUNT),
                        ));
                    }
                } else {
                    assert(self.log()[k] == (None::<(Seq<usize>, usize)>, choice as int));
                }
            }
        }
        decode_start_positions(n, self.number_of_cops, choice)
    }

    /// Places the cops by a weighted draw from the placement bag.
    pub fn start(&mut self, graph: &Graph) -> (positions: Vec<usize>)
        requires
            old(self).wf(),
            graph.wf(),
            start_bag_size(graph.vertex_count(), old(self).cop_count() as nat) <= MAX_BAG_SIZE,
        ensures
            final(self).wf(),
            final(self).cop_count() == old(self).cop_count(),
            old(self).table().dom().contains(None::<(Seq<usize>, usize)>) ==> final(self).table() == old(
                self,
            ).table(),
            !old(self).table().dom().contains(None::<(Seq<usize>, usize)>) ==> final(self).table() == old(
                self,
            ).table().insert(
                None::<(Seq<usize>, usize)>,
                Seq::new(
                    start_bag_size(graph.vertex_count(), old(self).cop_count() as nat),
                    |k: int| INITIAL_COUNT,
                ),
            ),
            final(self).log().len() == old(self).log().len() + 1,
            final(self).log().drop_last() == old(self).log(),
            final(self).log().last().0 == None::<(Seq<usize>, usize)>,
            0 <= final(self).log().last().1 < final(self).table()[None::<(Seq<usize>, usize)>].len(),
            positions@ == spec_decode_start(
                graph.vertex_count(),
                old(self).cop_count() as nat,
                final(self).log().last().1,
            ),
            positions@.len() == old(self).cop_count(),
            forall|i: int|
                0 <= i < positions@.len() ==> graph.valid_vertex(#[trigger] positions@[i] as int),
    {
        let n = graph.adjacency_list.len();
        proof {
            crate::util::lemma_pow_pos(n as nat, self.number_of_cops as nat);
        }
        let size = start_bag_size_exec(n, self.number_of_cops);
        let i = ensure_cop_bag(&mut self.bags, None, size);
        proof {
            lemma_bag_table_at(self.bags@, cop_kv(), i as int);
            assert(self.log() =~= old(self).log());
            assert forall|k: int| 0 <= k < self.log().len() implies {
                &&& self.table().dom().contains((#[trigger] self.log()[k]).0)
                &&& 0 <= self.log()[k].1 < self.table()[self.log()[k].0].len()
            } by {
                assert(old(self).log()[k] == self.log()[k]);
                assert(old(self).table().dom().contains(old(self).log()[k].0));
                if !old(self).table().dom().contains(None::<(Seq<usize>, usize)>) {
                    assert(self.table() == old(self).table().insert(
                        None::<(Seq<usize>, usize)>,
                        Seq::new(size as nat, |q: int| INITIAL_COUNT),
                    ));
                }
            }
        }
        let choice = self.bags[i].1.draw();
        let positions = self.start_with_choice(graph, choice);
        proof {
            assert(self.log().drop_last() =~= old(self).log());
        }
        positions
    }

    /// Moves the cops as `choice` says, after looking up (or creating) the
    /// bag of the state `(cop_positions, robber_position)` and logging the
    /// move. `step` draws the choice from the bag; taking it as an argument
    /// lets a deterministic caller drive the learner.
    pub fn step_with_choice(
        &mut self,
        graph: &Graph,
        cop_positions: &Vec<usize>,
        robber_position: usize,
        choice: usize,
    ) -> (positions: Vec<usize>)
        requires
            old(self).wf(),
            graph.wf(),
            forall|i: int|
                0 <= i < cop_positions@.len() ==> graph.valid_vertex(
                    #[trigger] cop_positions@[i] as int,
                ),
            cop_positions@.len() == old(self).cop_count(),
            spec_pow((graph.vertex_count() + 1) as nat, old(self).cop_count() as nat)
                <= MAX_BAG_SIZE,
            choice < old(self).step_bag_len(*graph, cop_positions@, robber_position),
        ensures
            final(self).wf(),
            final(self).cop_count() == old(self).cop_count(),
            old(self).table().dom().contains(Some((cop_positions@, robber_position))) ==> final(self).table() == old(self).table(),
            !old(self).table().dom().contains(Some((cop_positions@, robber_position))) ==> final(self).table() == old(self).table().insert(
                Some((cop_positions@, robber_position)),
                Seq::new(step_bag_size(*graph, cop_positions@), |k: int| INITIAL_COUNT),
            ),
            final(self).log() == old(self).log().push(
                (Some((cop_positions@, robber_position)), choice as int),
            ),
            positions@ == spec_decode_cop_move(*graph, cop_positions@, choice as int),
            positions@.len() == cop_positions@.len(),
            forall|i: int|
                0 <= i < positions@.len() ==> #[trigger] positions@[i] == cop_positions@[i]
                    || graph.nbrs(cop_positions@[i] as int).contains(positions@[i]),
            forall|i: int|
                0 <= i < positions@.len() ==> graph.valid_vertex(#[trigger] positions@[i] as int),
    {
        proof {
            lemma_step_bag_size_bounded(*graph, cop_positions@);
            lemma_step_bag_size_pos(*graph, cop_positions@);
            lemma_decode_cop_move_valid(*graph, cop_positions@, choice as int);
        }
        let size = step_bag_size_exec(graph, cop_positions);
        let key: CopStateKey = Some((copy_usize_vec(cop_positions), robber_position));
        let ghost kview = Some((cop_positions@, robber_position));
        proof {
            assert(cop_key_view(key) == kview);
        }
        let ghost prev = *self;
        let i = ensure_cop_bag(&mut self.bags, key, size);
        proof {
            lemma_bag_table_at(self.bags@, cop_kv(), i as int);
        }
        let ghost mid = *self;
        self.moves.push((Some((copy_usize_vec(cop_positions), robber_position)), choice));
        proof {
            assert(self.log() =~= mid.log().push((kview, choice as int)));
            assert(mid.log() =~= prev.log());
            assert(self.table() == mid.table());
            assert forall|k: int| 0 <= k < self.log().len() implies {
                &&& self.table().dom().contains((#[trigger] self.log()[k]).0)
                &&& 0 <= self.log()[k].1 < self.table()[self.log()[k].0].len()
            } by {
                if k < prev.log().len() {
                    assert(prev.log()[k] == self.log()[k]);
                    assert(prev.table().dom().contains(prev.log()[k].0));
                    if !prev.table().dom().contains(kview) {
                        assert(self.table() == prev.table().insert(
                            kview,
                            Seq::new(size as nat, |q: int| INITIAL_COUNT),
                        ));
                    }
                } else {
                    assert(self.log()[k] == (kview, choice as int));
                }
            }
        }
        decode_cop_move(graph, cop_positions, choice)
    }

    /// Moves the cops by a weighted draw from the bag of the state
    /// `(cop_positions, robber_position)`.
    pub fn step(
        &mut self,
        graph: &Graph,
        cop_positions: &Vec<usize>,
        robber_position: usize,
    ) -> (positions: Vec<usize>)
        requires
            old(self).wf(),
            graph.wf(),
            forall|i: int|
                0 <= i < cop_positions@.len() ==> graph.valid_vertex(
                    #[trigger] cop_positions@[i] as int,
                ),
            cop_positions@.len() == old(self).cop_count(),
            spec_pow((graph.vertex_count() + 1) as nat, old(self).cop_count() as nat)
                <= MAX_BAG_SIZE,
        ensures
            final(self).wf(),
            final(self).cop_count() == old(self).cop_count(),
            old(self).table().dom().contains(Some((cop_positions@, robber_position))) ==> final(self).table() == old(self).table(),
            !old(self).table().dom().contains(Some((cop_positions@, robber_position))) ==> final(self).table() == old(self).table().insert(
                Some((cop_positions@, robber_position)),
                Seq::new(step_bag_size(*graph, cop_positions@), |k: int| INITIAL_COUNT),
            ),
            final(self).log().len() == old(self).log().len() + 1,
            final(self).log().drop_last() == old(self).log(),
            final(self).log().last().0 == Some((cop_positions@, robber_position)),
            0 <= final(self).log().last().1 < final(self).table()[Some(
                (cop_positions@, robber_position),
            )].len(),
            positions@ == spec_decode_cop_move(
                *graph,
                cop_positions@,
                final(self).log().last().1,
            ),
            positions@.len() == cop_positions@.len(),
            forall|i: int|
                0 <= i < positions@.len() ==> #[trigger] positions@[i] == cop_positions@[i]
                    || graph.nbrs(cop_positions@[i] as int).contains(positions@[i]),
            forall|i: int|
                0 <= i < positions@.len() ==> graph.valid_vertex(#[trigger] positions@[i] as int),
    {
        proof {
            lemma_step_bag_size_bounded(*graph, cop_positions@);
            lemma_step_bag_size_pos(*graph, cop_positions@);
        }
        let size = step_bag_size_exec(graph, cop_positions);
        let key: CopStateKey = Some((copy_usize_vec(cop_positions), robber_position));
        let ghost kview = Some((cop_positions@, robber_position));
        proof {
            assert(cop_key_view(key) == kview);
        }
        let i = ensure_cop_bag(&mut self.bags, key, size);
        proof {
            lemma_bag_table_at(self.bags@, cop_kv(), i as int);
            assert(self.log() =~= old(self).log());
            assert forall|k: int| 0 <= k < self.log().len() implies {
                &&& self.table().dom().contains((#[trigger] self.log()[k]).0)
                &&& 0 <= self.log()[k].1 < self.table()[self.log()[k].0].len()
            } by {
                assert(old(self).log()[k] == self.log()[k]);
                assert(old(self).table().dom().contains(old(self).log()[k].0));
                if !old(self).table().dom().contains(kview) {
                    assert(self.table() == old(self).table().insert(
                        kview,
                        Seq::new(size as nat, |q: int| INITIAL_COUNT),
                    ));
                }
            }
        }
        let choice = self.bags[i].1.draw();
        let positions = self.step_with_choice(graph, cop_positions, robber_position, choice);
        proof {
            assert(self.log().drop_last() =~= old(self).log());
        }
        positions
    }

    /// Settles a finished game: if the cops won — the robber's final vertex
    /// is one of theirs — every logged move is rewarded, else every logged
    /// move is penalized; the log is then cleared. The learner's tables keep
    /// their states and sizes either way.
    pub fn end(&mut self, _graph: &Graph, cop_positions: &Vec<usize>, robber_position: usize)
        requires
            old(self).wf(),
        ensures
            final(self).wf(),
            final(self).cop_count() == old(self).cop_count(),
            final(self).log().len() == 0,
            final(self).table() == spec_apply_log(
                old(self).table(),
                old(self).log(),
                cop_positions@.contains(robber_position),
            ),
    {
        let won = crate::util::vec_contains_usize(cop_positions, robber_position);
        let ghost prev_bags = self.bags@;
        let ghost old_table = self.table();
        let ghost old_log = self.log();
        let ghost old_moves = self.moves@;
        let ghost old_cops = self.number_of_cops;
        proof {
            assert(old_log.take(0) =~= Seq::<(Option<(Seq<usize>, usize)>, int)>::empty());
        }
        let mut m: usize = 0;
        while m < self.moves.len()
            invariant
                won == cop_positions@.contains(robber_position),
                self.moves@ == old_moves,
                old_log.len() == old_moves.len(),
                forall|k: int|
                    0 <= k < old_moves.len() ==> #[trigger] old_log[k] == (cop_key_view(
                        old_moves[k].0,
                    ), old_moves[k].1 as int),
                forall|k: int|
                    0 <= k < old_log.len() ==> old_table.dom().contains((#[trigger] old_log[k]).0)
                        && 0 <= old_log[k].1 < old_table[old_log[k].0].len(),
                m <= old_moves.len(),
                self.number_of_cops == old_cops,
                self.bags@.len() == prev_bags.len(),
                forall|i: int|
                    0 <= i < prev_bags.len() ==> #[trigger] self.bags@[i].0 == prev_bags[i].0,
                bags_wf(self.bags@),
                distinct_keys(self.bags@, cop_kv()),
                old_table == bag_table(prev_bags, cop_kv()),
                bag_table(self.bags@, cop_kv()) == spec_apply_log(
                    old_table,
                    old_log.take(m as int),
                    won,
                ),
            decreases old_moves.len() - m,
        {
            let choice = self.moves[m].1;
            let idx_opt = find_cop_bag(&self.bags, &self.moves[m].0);
            proof {
                let kv = old_log[m as int].0;
                assert(old_table.dom().contains(kv));
                assert(kv == cop_key_view(old_moves[m as int].0));
                lemma_bag_table_dom(prev_bags, cop_kv(), kv);
                let w = choose|i: int|
                    0 <= i < prev_bags.len() && cop_kv()(#[trigger] prev_bags[i].0) == kv;
                assert(cop_key_view(self.bags@[w].0) == cop_key_view(self.moves@[m as int].0));
                assert(idx_opt is Some);
            }
            let i = idx_opt.unwrap();
            let ghost bags_before = self.bags@;
            proof {
                lemma_bag_table_at(bags_before, cop_kv(), i as int);
                lemma_apply_log_preserves(old_table, old_log.take(m as int), won);
                assert(cop_key_view(bags_before[i as int].0) == old_log[m as int].0);
                assert(bag_table(bags_before, cop_kv())[old_log[m as int].0]
                    == bags_before[i as int].1@);
                assert(choice < bags_before[i as int].1@.len());
            }
            let b = bag_at_mut(&mut self.bags, i);
            if won {
                b.increase(choice);
            } else {
                b.decrease(choice);
            }
            proof {
                let kv = old_log[m as int].0;
                assert(self.bags@ =~= bags_before.update(i as int, self.bags@[i as int]));
                lemma_bag_table_update(bags_before, cop_kv(), i as int, self.bags@[i as int]);
                assert(self.bags@[i as int].1@ == apply_outcome(
                    bags_before[i as int].1@,
                    choice as int,
                    won,
                ));
                assert(old_log.take(m + 1 as int) =~= old_log.take(m as int).push(
                    old_log[m as int],
                ));
                lemma_apply_log_push(old_table, old_log.take(m as int), old_log[m as int], won);
                assert(bag_table(self.bags@, cop_kv()) == spec_apply_log(
                    old_table,
                    old_log.take(m + 1 as int),
                    won,
                ));
                assert forall|a: int| 0 <= a < self.bags@.len() implies #[trigger] self.bags@[a].0
                    == prev_bags[a].0 by {
                    if a != i {
                        assert(self.bags@[a] == bags_before[a]);
                    }
                }
            }
            m = m + 1;
        }
        self.moves.clear();
        proof {
            assert(old_log.take(old_log.len() as int) =~= old_log);
            assert(self.log() =~= Seq::<(Option<(Seq<usize>, usize)>, int)>::empty());
        }
    }

    /// The bag stored for `key`, if that state has been visited. A display
    /// layer that finds no bag shows the uniform initial count for every
    /// legal choice instead.
    pub fn get_bag(&self, key: &CopStateKey) -> (r: Option<&Bag>)
        requires
            self.wf(),
        ensures
            match r {
                Some(bag) => self.table().dom().contains(cop_key_view(*key)) && bag@
                    == self.table()[cop_key_view(*key)] && bag.wf(),
                None => !self.table().dom().contains(cop_key_view(*key)),
            },
    {
        proof {
            lemma_bag_table_dom(self.bags@, cop_kv(), cop_key_view(*key));
        }
        match find_cop_bag(&self.bags, key) {
            Some(i) => {
                proof {
                    lemma_bag_table_at(self.bags@, cop_kv(), i as int);
                }
                Some(&self.bags[i].1)
            },
            None => None,
        }
    }
}

/// How many choices the bag at robber state `k` offers on graph `g`: one per
/// vertex at placement, one per neighbour plus "stay" mid-game.
pub open spec fn robber_bag_size(g: Graph, k: (Seq<usize>, Option<usize>)) -> int {
    match k.1 {
        None => g.vertex_count(),
        Some(r) => g.nbrs(r as int).len() + 1 as int,
    }
}

/// What the robber's move choice decodes to: the neighbour count itself
/// means "stay", any smaller choice names the neighbour moved to.
pub open spec fn spec_decode_robber_move(g: Graph, rpos: usize, choice: int) -> usize {
    if choice == g.nbrs(rpos as int).len() {
        rpos
    } else {
        g.nbrs(rpos as int)[choice]
    }
}

/// A robber player that learns: one bag per decision state, and a log of
/// the game in progress.
pub struct MenaceRobber {
    bags: Vec<(RobberStateKey, Bag)>,
    moves: Vec<(RobberStateKey, usize)>,
}

impl MenaceRobber {
    /// The bag store, as the map from a state to its counts.
    pub closed spec fn table(&self) -> Map<(Seq<usize>, Option<usize>), Seq<u32>> {
        bag_table(self.bags@, robber_kv())
    }

    /// The moves logged in the game in progress, in order.
    pub closed spec fn log(&self) -> Seq<((Seq<usize>, Option<usize>), int)> {
        Seq::new(
            self.moves@.len(),
            |i: int| (robber_key_view(self.moves@[i].0), self.moves@[i].1 as int),
        )
    }

    /// Well-formed: stored states are distinct, every bag is well-formed,
    /// and every logged move names a stored state and a choice its bag
    /// offers.
    pub closed spec fn wf(&self) -> bool {
        &&& distinct_keys(self.bags@, robber_kv())
        &&& bags_wf(self.bags@)
        &&& forall|i: int|
            0 <= i < self.log().len() ==> {
                &&& self.table().dom().contains((#[trigger] self.log()[i]).0)
                &&& 0 <= self.log()[i].1 < self.table()[self.log()[i].0].len()
            }
    }

    /// Every stored bag offers exactly the choices its state has on `g`.
    /// The robber reads a drawn choice back as a vertex or neighbour index,
    /// so its bags must be sized to the graph the game is played on.
    pub open spec fn sized_for(&self, g: Graph) -> bool {
        forall|k: (Seq<usize>, Option<usize>)|
            #[trigger] self.table().dom().contains(k) ==> self.table()[k].len()
                == robber_bag_size(g, k)
    }

    pub fn new() -> (r: MenaceRobber)
        ensures
            r.wf(),
            r.table() == Map::<(Seq<usize>, Option<usize>), Seq<u32>>::empty(),
            r.log() == Seq::<((Seq<usize>, Option<usize>), int)>::empty(),
            forall|g: Graph| #[trigger] r.sized_for(g),
    {
        let r = MenaceRobber { bags: Vec::new(), moves: Vec::new() };
        proof {
            assert(r.log() =~= Seq::<((Seq<usize>, Option<usize>), int)>::empty());
        }
        r
    }

    /// How many choices the placement bag at `cop_positions` offers, or will
    /// offer when it is first visited.
    pub open spec fn start_bag_len(&self, g: Graph, cpos: Seq<usize>) -> int {
        if self.table().dom().contains((cpos, None::<usize>)) {
            self.table()[(cpos, None::<usize>)].len() as int
        } else {
            g.vertex_count()
        }
    }

    /// How many choices the step bag at this state offers, or will offer
    /// when it is first visited.
    pub open spec fn step_bag_len(&self, g: Graph, cpos: Seq<usize>, rpos: usize) -> int {
        if self.table().dom().contains((cpos, Some(rpos))) {
            self.table()[(cpos, Some(rpos))].len() as int
        } else {
            g.nbrs(rpos as int).len() + 1 as int
        }
    }

    /// Places the robber on the vertex `choice` names, after looking up (or
    /// creating) the placement bag and logging the move. `start` draws the
    /// choice from the bag; taking it as an argument lets a deterministic
    /// caller drive the learner.
    pub fn start_with_choice(
        &mut self,
        graph: &Graph,
        cop_positions: &Vec<usize>,
        choice: usize,
    ) -> (position: usize)
        requires
            old(self).wf(),
            old(self).sized_for(*graph),
            graph.wf(),
            graph.vertex_count() < MAX_BAG_SIZE,
            choice < old(self).start_bag_len(*graph, cop_positions@),
        ensures
            final(self).wf(),
            final(self).sized_for(*graph),
            old(self).table().dom().contains((cop_positions@, None::<usize>)) ==> final(self).table() == old(self).table(),
            !old(self).table().dom().contains((cop_positions@, None::<usize>)) ==> final(self).table() == old(self).table().insert(
                (cop_positions@, None::<usize>),
                Seq::new(graph.vertex_count() as nat, |k: int| INITIAL_COUNT),
            ),
            final(self).log() == old(self).log().push(
                ((cop_positions@, None::<usize>), choice as int),
            ),
            position == choice,
            graph.valid_vertex(position as int),
    {
        let n = graph.adjacency_list.len();
        let key: RobberStateKey = (copy_usize_vec(cop_positions), None);
        let ghost kview = (cop_positions@, None::<usize>);
        proof {
            assert(robber_key_view(key) == kview);
            if old(self).table().dom().contains(kview) {
                assert(old(self).table()[kview].len() == robber_bag_size(*graph, kview));
            }
        }
        let ghost prev = *self;
        let i = ensure_robber_bag(&mut self.bags, key, n);
        proof {
            lemma_bag_table_at(self.bags@, robber_kv(), i as int);
        }
        let ghost mid = *self;
        self.moves.push(((copy_usize_vec(cop_positions), None), choice));
        proof {
            assert(self.log() =~= mid.log().push((kview, choice as int)));
            assert(mid.log() =~= prev.log());
            assert(self.table() == mid.table());
            assert forall|k: int| 0 <= k < self.log().len() implies {
                &&& self.table().dom().contains((#[trigger] self.log()[k]).0)
                &&& 0 <= self.log()[k].1 < self.table()[self.log()[k].0].len()
            } by {
                if k < prev.log().len() {
                    assert(prev.log()[k] == self.log()[k]);
                    assert(prev.table().dom().contains(prev.log()[k].0));
                    if !prev.table().dom().contains(kview) {
                        assert(self.table() == prev.table().insert(
                            kview,
                            Seq::new(n as nat, |q: int| INITIAL_COUNT),
                        ));
                    }
                } else {
                    assert(self.log()[k] == (kview, choice as int));
                }
            }
            assert forall|k: (Seq<usize>, Option<usize>)| #[trigger] self.table().dom().contains(
                k,
            ) implies self.table()[k].len() == robber_bag_size(*graph, k) by {
                if !prev.table().dom().contains(kview) {
                    assert(self.table() == prev.table().insert(
                        kview,
                        Seq::new(n as nat, |q: int| INITIAL_COUNT),
                    ));
                    if k != kview {
                        assert(prev.table().dom().contains(k));
                    }
                }
            }
        }
        choice
    }

    /// Places the robber by a weighted draw from the placement bag.
    pub fn start(&mut self, graph: &Graph, cop_positions: &Vec<usize>) -> (position: usize)
        requires
            old(self).wf(),
            old(self).sized_for(*graph),
            graph.wf(),
            graph.vertex_count() < MAX_BAG_SIZE,
        ensures
            final(self).wf(),
            final(self).sized_for(*graph),
            old(self).table().dom().contains((cop_positions@, None::<usize>)) ==> final(self).table() == old(self).table(),
            !old(self).table().dom().contains((cop_positions@, None::<usize>)) ==> final(self).table() == old(self).table().insert(
                (cop_positions@, None::<usize>),
                Seq::new(graph.vertex_count() as nat, |k: int| INITIAL_COUNT),
            ),
            final(self).log().len() == old(self).log().len() + 1,
            final(self).log().drop_last() == old(self).log(),
            final(self).log().last().0 == (cop_positions@, None::<usize>),
            0 <= final(self).log().last().1 < final(self).table()[
                (cop_positions@, None::<usize>)
            ].len(),
            position == final(self).log().last().1,
            graph.valid_vertex(position as int),
    {
        let n = graph.adjacency_list.len();
        let key: RobberStateKey = (copy_usize_vec(cop_positions), None);
        let ghost kview = (cop_positions@, None::<usize>);
        proof {
            assert(robber_key_view(key) == kview);
        }
        let i = ensure_robber_bag(&mut self.bags, key, n);
        proof {
            lemma_bag_table_at(self.bags@, robber_kv(), i as int);
            assert(self.log() =~= old(self).log());
            assert forall|k: int| 0 <= k < self.log().len() implies {
                &&& self.table().dom().contains((#[trigger] self.log()[k]).0)
                &&& 0 <= self.log()[k].1 < self.table()[self.log()[k].0].len()
            } by {
                assert(old(self).log()[k] == self.log()[k]);
                assert(old(self).table().dom().contains(old(self).log()[k].0));
                if !old(self).table().dom().contains(kview) {
                    assert(self.table() == old(self).table().insert(
                        kview,
                        Seq::new(n as nat, |q: int| INITIAL_COUNT),
                    ));
                }
            }
            assert forall|k: (Seq<usize>, Option<usize>)| #[trigger] self.table().dom().contains(
                k,
            ) implies self.table()[k].len() == robber_bag_size(*graph, k) by {
                if !old(self).table().dom().contains(kview) {
                    assert(self.table() == old(self).table().insert(
                        kview,
                        Seq::new(n as nat, |q: int| INITIAL_COUNT),
                    ));
                    if k != kview {
                        assert(old(self).table().dom().contains(k));
                    }
                }
            }
        }
        let choice = self.bags[i].1.draw();
        let position = self.start_with_choice(graph, cop_positions, choice);
        proof {
            assert(self.log().drop_last() =~= old(self).log());
        }
        position
    }

    /// Moves the robber as `choice` says, after looking up (or creating)
    /// the bag of the state `(cop_positions, robber_position)` and logging
    /// the move.
    pub fn step_with_choice(
        &mut self,
        graph: &Graph,
        cop_positions: &Vec<usize>,
        robber_position: usize,
        choice: usize,
    ) -> (position: usize)
        requires
            old(self).wf(),
            old(self).sized_for(*graph),
            graph.wf(),
            graph.vertex_count() < MAX_BAG_SIZE,
            graph.valid_vertex(robber_position as int),
            choice < old(self).step_bag_len(*graph, cop_positions@, robber_position),
        ensures
            final(self).wf(),
            final(self).sized_for(*graph),
            old(self).table().dom().contains((cop_positions@, Some(robber_position))) ==> final(self).table() == old(self).table(),
            !old(self).table().dom().contains((cop_positions@, Some(robber_position))) ==> final(self).table() == old(self).table().insert(
                (cop_positions@, Some(robber_position)),
                Seq::new(
                    (graph.nbrs(robber_position as int).len() + 1) as nat,
                    |k: int| INITIAL_COUNT,
                ),
            ),
            final(self).log() == old(self).log().push(
                ((cop_positions@, Some(robber_position)), choice as int),
            ),
            position == spec_decode_robber_move(*graph, robber_position, choice as int),
            position == robber_position || graph.nbrs(robber_position as int).contains(position),
            graph.valid_vertex(position as int),
    {
        let neighbours_len = graph.adjacency_list[robber_position].len();
        proof {
            graph.lemma_degree_bounded(robber_position as int);
            if old(self).table().dom().contains((cop_positions@, Some(robber_position))) {
                assert(old(self).table()[(cop_positions@, Some(robber_position))].len()
                    == robber_bag_size(*graph, (cop_positions@, Some(robber_position))));
            }
        }
        let key: RobberStateKey = (copy_usize_vec(cop_positions), Some(robber_position));
        let ghost kview = (cop_positions@, Some(robber_position));
        proof {
            assert(robber_key_view(key) == kview);
        }
        let ghost prev = *self;
        let i = ensure_robber_bag(&mut self.bags, key, neighbours_len + 1);
        proof {
            lemma_bag_table_at(self.bags@, robber_kv(), i as int);
        }
        let ghost mid = *self;
        self.moves.push(((copy_usize_vec(cop_positions), Some(robber_position)), choice));
        proof {
            assert(self.log() =~= mid.log().push((kview, choice as int)));
            assert(mid.log() =~= prev.log());
            assert(self.table() == mid.table());
            assert forall|k: int| 0 <= k < self.log().len() implies {
                &&& self.table().dom().contains((#[trigger] self.log()[k]).0)
                &&& 0 <= self.log()[k].1 < self.table()[self.log()[k].0].len()
            } by {
                if k < prev.log().len() {
                    assert(prev.log()[k] == self.log()[k]);
                    assert(prev.table().dom().contains(prev.log()[k].0));
                    if !prev.table().dom().contains(kview) {
                        assert(self.table() == prev.table().insert(
                            kview,
                            Seq::new((neighbours_len + 1) as nat, |q: int| INITIAL_COUNT),
                        ));
                    }
                } else {
                    assert(self.log()[k] == (kview, choice as int));
                }
            }
            assert forall|k: (Seq<usize>, Option<usize>)| #[trigger] self.table().dom().contains(
                k,
            ) implies self.table()[k].len() == robber_bag_size(*graph, k) by {
                if !prev.table().dom().contains(kview) {
                    assert(self.table() == prev.table().insert(
                        kview,
                        Seq::new((neighbours_len + 1) as nat, |q: int| INITIAL_COUNT),
                    ));
                    if k != kview {
                        assert(prev.table().dom().contains(k));
                    }
                }
            }
        }
        if choice == neighbours_len {
            robber_position
        } else {
            let p = graph.adjacency_list[robber_position][choice];
            proof {
                assert(graph.nbrs(robber_position as int).contains(p));
            }
            p
        }
    }

    /// Moves the robber by a weighted draw from the bag of the state
    /// `(cop_positions, robber_position)`.
    pub fn step(
        &mut self,
        graph: &Graph,
        cop_positions: &Vec<usize>,
        robber_position: usize,
    ) -> (position: usize)
        requires
            old(self).wf(),
            old(self).sized_for(*graph),
            graph.wf(),
            graph.vertex_count() < MAX_BAG_SIZE,
            graph.valid_vertex(robber_position as int),
        ensures
            final(self).wf(),
            final(self).sized_for(*graph),
            old(self).table().dom().contains((cop_positions@, Some(robber_position))) ==> final(self).table() == old(self).table(),
            !old(self).table().dom().contains((cop_positions@, Some(robber_position))) ==> final(self).table() == old(self).table().insert(
                (cop_positions@, Some(robber_position)),
                Seq::new(
                    (graph.nbrs(robber_position as int).len() + 1) as nat,
                    |k: int| INITIAL_COUNT,
                ),
            ),
            final(self).log().len() == old(self).log().len() + 1,
            final(self).log().drop_last() == old(self).log(),
            final(self).log().last().0 == (cop_positions@, Some(robber_position)),
            0 <= final(self).log().last().1 < final(self).table()[
                (cop_positions@, Some(robber_position))
            ].len(),
            position == spec_decode_robber_move(
                *graph,
                robber_position,
                final(self).log().last().1,
            ),
            position == robber_position || graph.nbrs(robber_position as int).contains(position),
            graph.valid_vertex(position as int),
    {
        let neighbours_len = graph.adjacency_list[robber_position].len();
        proof {
            graph.lemma_degree_bounded(robber_position as int);
        }
        let key: RobberStateKey = (copy_usize_vec(cop_positions), Some(robber_position));
        let ghost kview = (cop_positions@, Some(robber_position));
        proof {
            assert(robber_key_view(key) == kview);
            if old(self).table().dom().contains(kview) {
                assert(old(self).table()[kview].len() == robber_bag_size(*graph, kview));
            }
        }
        let i = ensure_robber_bag(&mut self.bags, key, neighbours_len + 1);
        proof {
            lemma_bag_table_at(self.bags@, robber_kv(), i as int);
            assert(self.log() =~= old(self).log());
            assert forall|k: int| 0 <= k < self.log().len() implies {
                &&& self.table().dom().contains((#[trigger] self.log()[k]).0)
                &&& 0 <= self.log()[k].1 < self.table()[self.log()[k].0].len()
            } by {
                assert(old(self).log()[k] == self.log()[k]);
                assert(old(self).table().dom().contains(old(self).log()[k].0));
                if !old(self).table().dom().contains(kview) {
                    assert(self.table() == old(self).table().insert(
                        kview,
                        Seq::new((neighbours_len + 1) as nat, |q: int| INITIAL_COUNT),
                    ));
                }
            }
            assert forall|k: (Seq<usize>, Option<usize>)| #[trigger] self.table().dom().contains(
                k,
            ) implies self.table()[k].len() == robber_bag_size(*graph, k) by {
                if !old(self).table().dom().contains(kview) {
                    assert(self.table() == old(self).table().insert(
                        kview,
                        Seq::new((neighbours_len + 1) as nat, |q: int| INITIAL_COUNT),
                    ));
                    if k != kview {
                        assert(old(self).table().dom().contains(k));
                    }
                }
            }
        }
        let choice = self.bags[i].1.draw();
        let position = self.step_with_choice(graph, cop_positions, robber_position, choice);
        proof {
            assert(self.log().drop_last() =~= old(self).log());
        }
        position
    }

    /// Settles a finished game: if the robber won — its final vertex is on
    /// no cop's — every logged move is rewarded, else every logged move is
    /// penalized; the log is then cleared.
    pub fn end(&mut self, _graph: &Graph, cop_positions: &Vec<usize>, robber_position: usize)
        requires
            old(self).wf(),
        ensures
            final(self).wf(),
            final(self).log().len() == 0,
            final(self).table() == spec_apply_log(
                old(self).table(),
                old(self).log(),
                !cop_positions@.contains(robber_position),
            ),
            forall|g: Graph| old(self).sized_for(g) ==> #[trigger] final(self).sized_for(g),
    {
        let won = !crate::util::vec_contains_usize(cop_positions, robber_position);
        let ghost prev_bags = self.bags@;
        let ghost old_table = self.table();
        let ghost old_log = self.log();
        let ghost old_moves = self.moves@;
        proof {
            assert(old_log.take(0) =~= Seq::<((Seq<usize>, Option<usize>), int)>::empty());
        }
        let mut m: usize = 0;
        while m < self.moves.len()
            invariant
                won == !cop_positions@.contains(robber_position),
                self.moves@ == old_moves,
                old_log.len() == old_moves.len(),
                forall|k: int|
                    0 <= k < old_moves.len() ==> #[trigger] old_log[k] == (robber_key_view(
                        old_moves[k].0,
                    ), old_moves[k].1 as int),
                forall|k: int|
                    0 <= k < old_log.len() ==> old_table.dom().contains((#[trigger] old_log[k]).0)
                        && 0 <= old_log[k].1 < old_table[old_log[k].0].len(),
                m <= old_moves.len(),
                self.bags@.len() == prev_bags.len(),
                forall|i: int|
                    0 <= i < prev_bags.len() ==> #[trigger] self.bags@[i].0 == prev_bags[i].0,
                bags_wf(self.bags@),
                distinct_keys(self.bags@, robber_kv()),
                old_table == bag_table(prev_bags, robber_kv()),
                bag_table(self.bags@, robber_kv()) == spec_apply_log(
                    old_table,
                    old_log.take(m as int),
                    won,
                ),
            decreases old_moves.len() - m,
        {
            let choice = self.moves[m].1;
            let idx_opt = find_robber_bag(&self.bags, &self.moves[m].0);
            proof {
                let kv = old_log[m as int].0;
                assert(old_table.dom().contains(kv));
                assert(kv == robber_key_view(old_moves[m as int].0));
                lemma_bag_table_dom(prev_bags, robber_kv(), kv);
                let w = choose|i: int|
                    0 <= i < prev_bags.len() && robber_kv()(#[trigger] prev_bags[i].0) == kv;
                assert(robber_key_view(self.bags@[w].0) == robber_key_view(
                    self.moves@[m as int].0,
                ));
                assert(idx_opt is Some);
            }
            let i = idx_opt.unwrap();
            let ghost bags_before = self.bags@;
            proof {
                lemma_bag_table_at(bags_before, robber_kv(), i as int);
                lemma_apply_log_preserves(old_table, old_log.take(m as int), won);
                assert(robber_key_view(bags_before[i as int].0) == old_log[m as int].0);
                assert(bag_table(bags_before, robber_kv())[old_log[m as int].0]
                    == bags_before[i as int].1@);
                assert(choice < bags_before[i as int].1@.len());
            }
            let b = bag_at_mut(&mut self.bags, i);
            if won {
                b.increase(choice);
            } else {
                b.decrease(choice);
            }
            proof {
                assert(self.bags@ =~= bags_before.update(i as int, self.bags@[i as int]));
                lemma_bag_table_update(bags_before, robber_kv(), i as int, self.bags@[i as int]);
                assert(self.bags@[i as int].1@ == apply_outcome(
                    bags_before[i as int].1@,
                    choice as int,
                    won,
                ));
                assert(old_log.take(m + 1 as int) =~= old_log.take(m as int).push(
                    old_log[m as int],
                ));
                lemma_apply_log_push(old_table, old_log.take(m as int), old_log[m as int], won);
                assert(bag_table(self.bags@, robber_kv()) == spec_apply_log(
                    old_table,
                    old_log.take(m + 1 as int),
                    won,
                ));
                assert forall|a: int| 0 <= a < self.bags@.len() implies #[trigger] self.bags@[a].0
                    == prev_bags[a].0 by {
                    if a != i {
                        assert(self.bags@[a] == bags_before[a]);
                    }
                }
            }
            m = m + 1;
        }
        self.moves.clear();
        proof {
            assert(old_log.take(old_log.len() as int) =~= old_log);
            assert(self.log() =~= Seq::<((Seq<usize>, Option<usize>), int)>::empty());
            lemma_apply_log_preserves(old_table, old_log, won);
        }
    }

    /// The bag stored for `key`, if that state has been visited. A display
    /// layer that finds no bag shows the uniform initial count for every
    /// legal choice instead.
    pub fn get_bag(&self, key: &RobberStateKey) -> (r: Option<&Bag>)
        requires
            self.wf(),
        ensures
            match r {
                Some(bag) => self.table().dom().contains(robber_key_view(*key)) && bag@
                    == self.table()[robber_key_view(*key)] && bag.wf(),
                None => !self.table().dom().contains(robber_key_view(*key)),
            },
    {
        proof {
            lemma_bag_table_dom(self.bags@, robber_kv(), robber_key_view(*key));
        }
        match find_robber_bag(&self.bags, key) {
            Some(i) => {
                proof {
                    lemma_bag_table_at(self.bags@, robber_kv(), i as int);
                }
                Some(&self.bags[i].1)
            },
            None => None,
        }
    }
}

} // verus!
