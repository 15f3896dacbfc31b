//! A sound, zero-knowledge cut-and-choose verifiable shuffle (Sako–Kilian).
//!
//! For each of `ROUNDS` rounds the prover publishes an independent intermediate
//! shuffle `E_j` of the input. A Fiat–Shamir challenge bit then forces the
//! prover to reveal *one* linkage: input→`E_j` (bit 0) or `E_j`→output (bit 1).
//! A cheat survives a round with probability at most 1/2, so `ROUNDS` rounds
//! drive the soundness error to `2^-ROUNDS`. Revealing one linkage per round
//! leaks nothing about the real permutation.

use crate::elgamal::{
    lemma_remask_composes, lemma_remask_preserves_plaintext, lemma_remask_twice, plaintext, remasked,
    AggregateKey, ElGamalCrypto, MaskedCard, MpError,
};
use crate::point::Point;
use crate::scalar::{group_order, Scalar};
use crate::sigma::{fiat_shamir_bit, fiat_shamir_bits, logs_of};
use vstd::prelude::*;
use vstd::std_specs::cmp::PartialEqSpecImpl;
use vstd::relations::injective_on;
use vstd::set_lib::{lemma_int_range, lemma_map_size, lemma_subset_equality, set_int_range};

verus! {

/// Number of cut-and-choose rounds; the soundness error is `2^-ROUNDS`.
pub const ROUNDS: usize = 40;

/// The logarithms of the components of each card of a deck.
pub open spec fn deck_view(deck: Seq<MaskedCard>) -> Seq<(int, int)> {
    deck.map_values(|c: MaskedCard| c@)
}

/// `p` is a permutation of `0..n`: `n` indices, each below `n`, no two equal.
pub open spec fn is_perm(p: Seq<usize>, n: int) -> bool {
    &&& p.len() == n
    &&& forall|i: int| 0 <= i < n ==> #[trigger] p[i] < n
    &&& forall|i: int, j: int| 0 <= i < j < n ==> p[i] != p[j]
}

/// The deck `out[i] = remask(deck[perm[i]], rand[i])`, as long as the shorter
/// of `perm` and `rand`.
pub open spec fn applied(h: int, deck: Seq<(int, int)>, perm: Seq<usize>, rand: Seq<int>) -> Seq<
    (int, int),
> {
    let len = if perm.len() <= rand.len() {
        perm.len()
    } else {
        rand.len()
    };
    Seq::new(len, |i: int| remasked(h, deck[perm[i] as int], rand[i]))
}

/// The logarithms `c1, c2` of each card of a deck, one card after the other.
pub open spec fn deck_points(deck: Seq<(int, int)>) -> Seq<int>
    decreases deck.len(),
{
    if deck.len() == 0 {
        Seq::empty()
    } else {
        deck_points(deck.drop_last()) + seq![deck.last().0, deck.last().1]
    }
}

/// The points of several decks, one deck after the other.
pub open spec fn decks_points(decks: Seq<Seq<(int, int)>>) -> Seq<int>
    decreases decks.len(),
{
    if decks.len() == 0 {
        Seq::empty()
    } else {
        decks_points(decks.drop_last()) + deck_points(decks.last())
    }
}

/// The points that the shuffle's Fiat–Shamir transcript absorbs: the input,
/// the output, then every intermediate deck.
pub open spec fn transcript_logs(
    input: Seq<(int, int)>,
    output: Seq<(int, int)>,
    intermediates: Seq<Seq<(int, int)>>,
) -> Seq<int> {
    deck_points(input) + deck_points(output) + decks_points(intermediates)
}

/// Is `p` a permutation of `0..n`?
pub fn is_permutation(p: &[usize], n: usize) -> (b: bool)
    ensures
        b == is_perm(p@, n as int),
{
    if p.len() != n {
        return false;
    }
    let mut seen: Vec<bool> = Vec::new();
    let mut k: usize = 0;
    while k < n
        invariant
            k <= n,
            seen@.len() == k,
            forall|x: int| 0 <= x < k ==> !(#[trigger] seen@[x]),
        decreases n - k,
    {
        seen.push(false);
        k = k + 1;
    }
    let mut i: usize = 0;
    while i < n
        invariant
            i <= n,
            p@.len() == n,
            seen@.len() == n,
            forall|a: int| 0 <= a < i ==> #[trigger] p@[a] < n,
            forall|a: int, b: int| 0 <= a < b < i ==> p@[a] != p@[b],
            forall|x: int|
                0 <= x < n ==> (#[trigger] seen@[x] <==> exists|a: int|
                    0 <= a < i && p@[a] == x),
        decreases n - i,
    {
        let x = p[i];
        if x >= n {
            return false;
        }
        if seen[x] {
            let ghost a = choose|a: int| 0 <= a < i && p@[a] == x;
            assert(p@[a] == p@[i as int]);
            return false;
        }
        seen.set(x, true);
        i = i + 1;
        assert forall|y: int| 0 <= y < n implies (#[trigger] seen@[y] <==> exists|a: int|
            0 <= a < i && p@[a] == y) by {
            if y == x {
                assert(p@[i - 1] == y);
            } else if seen@[y] {
                let a = choose|a: int| 0 <= a < i - 1 && p@[a] == y;
                assert(0 <= a < i && p@[a] == y);
            }
        }
    }
    true
}

/// `RngCore::next_u64`: the next 64 random bits of the caller's source.
/// Nothing is stated of which value comes out.
#[verifier::external_body]
fn rng_next_u64<R: rand::RngCore>(rng: &mut R) -> (x: u64) {
    rng.next_u64()
}

/// The number of draws Fisher–Yates makes for `n` positions: one for each
/// position from `n - 1` down to `1`.
pub open spec fn fisher_yates_draw_count(n: int) -> int {
    if n > 0 {
        n - 1
    } else {
        0
    }
}

/// The Fisher–Yates shuffle of `0..n` after the draws `draws`: start from the
/// identity, and for the `t`-th draw `x` swap position `i = n - 1 - t` with
/// position `x mod (i + 1)`.
pub open spec fn fisher_yates(n: int, draws: Seq<u64>) -> Seq<usize>
    decreases draws.len(),
{
    if draws.len() == 0 {
        Seq::new(n as nat, |x: int| x as usize)
    } else {
        let prev = fisher_yates(n, draws.drop_last());
        let i = n - draws.len();
        let j = (draws.last() as int) % (i + 1);
        prev.update(i, prev[j]).update(j, prev[i])
    }
}

/// `p` is the Fisher–Yates shuffle of `0..n` for some sequence of draws.
pub open spec fn drawn_by_fisher_yates(p: Seq<usize>, n: int) -> bool {
    exists|draws: Seq<u64>|
        draws.len() == fisher_yates_draw_count(n) && p == #[trigger] fisher_yates(n, draws)
}

/// Draw a random permutation of `0..n` (Fisher–Yates): for `i` from `n - 1`
/// down to `1`, swap position `i` with position `x mod (i + 1)` for a value `x`
/// drawn from `rng`. Whatever is drawn, the result is the Fisher–Yates shuffle
/// for those draws, and a permutation of `0..n`. The draws are returned too,
/// as ghost state.
fn random_permutation<R: rand::RngCore>(n: usize, rng: &mut R) -> (res: (
    Vec<usize>,
    Ghost<Seq<u64>>,
))
    ensures
        is_perm(res.0@, n as int),
        res.1@.len() == fisher_yates_draw_count(n as int),
        res.0@ == fisher_yates(n as int, res.1@),
        drawn_by_fisher_yates(res.0@, n as int),
{
    let mut p: Vec<usize> = Vec::new();
    let mut k: usize = 0;
    while k < n
        invariant
            k <= n,
            p@.len() == k,
            forall|x: int| 0 <= x < k ==> #[trigger] p@[x] == x,
        decreases n - k,
    {
        p.push(k);
        k = k + 1;
    }
    let ghost mut draws: Seq<u64> = Seq::empty();
    assert(p@ =~= fisher_yates(n as int, draws));
    let mut i: usize = n;
    while i > 1
        invariant
            i <= n,
            is_perm(p@, n as int),
            n > 0 ==> draws.len() == n - i && i >= 1,
            n == 0 ==> draws.len() == 0 && i == 0,
            p@ == fisher_yates(n as int, draws),
        decreases i,
    {
        i = i - 1;
        let x = rng_next_u64(rng);
        let j = (x % (i as u64 + 1)) as usize;
        let a = p[i];
        let b = p[j];
        let ghost prev = p@;
        let ghost old_draws = draws;
        p.set(i, b);
        p.set(j, a);
        proof {
            draws = draws.push(x);
            assert(draws.drop_last() =~= old_draws);
            assert(j == (x as int) % (i + 1));
            assert(p@ =~= prev.update(i as int, prev[j as int]).update(j as int, prev[i as int]));
        }
    }
    assert(draws.len() == fisher_yates_draw_count(n as int));
    (p, Ghost(draws))
}

/// Invert a permutation: `inv[p[i]] = i`. For an index `x` that occurs in
/// `p`, `inv[x]` is the last position holding it; for one that does not,
/// `inv[x]` stays `0`.
pub fn invert(p: &[usize]) -> (inv: Vec<usize>)
    requires
        forall|i: int| 0 <= i < p@.len() ==> #[trigger] p@[i] < p@.len(),
    ensures
        inv@.len() == p@.len(),
        forall|x: int|
            0 <= x < p@.len() ==> {
                &&& (exists|i: int| 0 <= i < p@.len() && p@[i] == x) ==> {
                    &&& inv@[x] < p@.len()
                    &&& p@[inv@[x] as int] == x
                    &&& forall|i: int| inv@[x] < i < p@.len() ==> p@[i] != x
                }
                &&& (forall|i: int| 0 <= i < p@.len() ==> p@[i] != x) ==> inv@[x] == 0
            },
{
    let n = p.len();
    let mut inv: Vec<usize> = Vec::new();
    let mut k: usize = 0;
    while k < n
        invariant
            k <= n,
            inv@.len() == k,
            forall|x: int| 0 <= x < k ==> #[trigger] inv@[x] == 0,
        decreases n - k,
    {
        inv.push(0);
        k = k + 1;
    }
    let mut i: usize = 0;
    while i < n
        invariant
            i <= n,
            n == p@.len(),
            inv@.len() == n,
            forall|a: int| 0 <= a < n ==> #[trigger] p@[a] < n,
            forall|x: int|
                0 <= x < n ==> {
                    &&& (exists|a: int| 0 <= a < i && p@[a] == x) ==> {
                        &&& inv@[x] < i
                        &&& p@[inv@[x] as int] == x
                        &&& forall|a: int| inv@[x] < a < i ==> p@[a] != x
                    }
                    &&& (forall|a: int| 0 <= a < i ==> p@[a] != x) ==> inv@[x] == 0
                },
        decreases n - i,
    {
        let ghost old_inv = inv@;
        let pi = p[i];
        inv.set(pi, i);
        i = i + 1;
        assert forall|x: int| 0 <= x < n implies {
            &&& (exists|a: int| 0 <= a < i && p@[a] == x) ==> {
                &&& inv@[x] < i
                &&& p@[inv@[x] as int] == x
                &&& forall|a: int| inv@[x] < a < i ==> p@[a] != x
            }
            &&& (forall|a: int| 0 <= a < i ==> p@[a] != x) ==> inv@[x] == 0
        } by {
            if x != pi {
                assert(inv@[x] == old_inv[x]);
                if exists|a: int| 0 <= a < i && p@[a] == x {
                    let a = choose|a: int| 0 <= a < i && p@[a] == x;
                    assert(a != i - 1);
                    assert(exists|a: int| 0 <= a < i - 1 && p@[a] == x);
                }
            }
        }
    }
    inv
}

/// The position that holds `x` in the permutation `sigma`.
pub open spec fn inverse_at(sigma: Seq<usize>, x: int) -> int {
    choose|t: int| 0 <= t < sigma.len() && sigma[t] == x
}

/// The inverse `sigma⁻¹` of a permutation `sigma`.
pub open spec fn inverse(sigma: Seq<usize>) -> Seq<usize> {
    Seq::new(sigma.len(), |x: int| inverse_at(sigma, x) as usize)
}

/// The inverse of a permutation is a permutation and a two-sided inverse.
pub proof fn lemma_inverse(sigma: Seq<usize>, n: int)
    requires
        is_perm(sigma, n),
        n <= usize::MAX,
    ensures
        is_perm(inverse(sigma), n),
        forall|x: int| 0 <= x < n ==> sigma[#[trigger] inverse(sigma)[x] as int] == x,
        forall|t: int| 0 <= t < n ==> #[trigger] inverse(sigma)[sigma[t] as int] == t,
{
    let inv = inverse(sigma);
    assert forall|x: int| 0 <= x < n implies #[trigger] inv[x] < n && sigma[inv[x] as int]
        == x by {
        lemma_permutation_onto(sigma, n, x);
        let t = inverse_at(sigma, x);
        assert(0 <= t < n && sigma[t] == x);
    }
    assert forall|t: int| 0 <= t < n implies #[trigger] inv[sigma[t] as int] == t by {
        let x = sigma[t] as int;
        let u = inv[x] as int;
        assert(sigma[u] == x);
        if u < t {
            assert(sigma[u] != sigma[t]);
        } else if t < u {
            assert(sigma[t] != sigma[u]);
        }
    }
    assert forall|a: int, b: int| 0 <= a < b < n implies inv[a] != inv[b] by {
        assert(sigma[inv[a] as int] == a);
        assert(sigma[inv[b] as int] == b);
    }
}

/// What [`invert`] returns for a permutation is its inverse.
proof fn lemma_invert_is_inverse(p: Seq<usize>, inv: Seq<usize>, n: int)
    requires
        is_perm(p, n),
        n <= usize::MAX,
        inv.len() == n,
        forall|x: int|
            0 <= x < n ==> {
                &&& (exists|i: int| 0 <= i < n && p[i] == x) ==> {
                    &&& inv[x] < n
                    &&& p[inv[x] as int] == x
                    &&& forall|i: int| inv[x] < i < n ==> p[i] != x
                }
                &&& (forall|i: int| 0 <= i < n ==> p[i] != x) ==> inv[x] == 0
            },
    ensures
        inv == inverse(p),
{
    lemma_inverse(p, n);
    assert forall|x: int| 0 <= x < n implies #[trigger] inv[x] == inverse(p)[x] by {
        lemma_permutation_onto(p, n, x);
        let u = inverse(p)[x] as int;
        let v = inv[x] as int;
        assert(p[u] == x && p[v] == x);
        if u < v {
            assert(p[u] != p[v]);
        } else if v < u {
            assert(p[v] != p[u]);
        }
    }
    assert(inv =~= inverse(p));
}

/// Every index below `n` occurs in a permutation of `0..n`.
proof fn lemma_permutation_onto(p: Seq<usize>, n: int, x: int)
    requires
        is_perm(p, n),
        0 <= x < n,
    ensures
        exists|i: int| 0 <= i < n && p[i] == x,
{
    let dom = set_int_range(0, n);
    let f = |i: int| p[i] as int;
    lemma_int_range(0, n);
    assert(injective_on(f, dom)) by {
        assert forall|a: int, b: int| dom.contains(a) && dom.contains(b) && #[trigger] f(a)
            == #[trigger] f(b) implies a == b by {
            if a < b {
                assert(p[a] != p[b]);
            } else if b < a {
                assert(p[b] != p[a]);
            }
        }
    }
    let img = dom.map(f);
    lemma_map_size(dom, img, f);
    assert(img.subset_of(dom)) by {
        assert forall|y: int| img.contains(y) implies dom.contains(y) by {
            let i = choose|i: int| dom.contains(i) && f(i) == y;
            assert(p[i] < n);
        }
    }
    lemma_subset_equality(img, dom);
    assert(img.contains(x));
    let i = choose|i: int| dom.contains(i) && f(i) == x;
    assert(0 <= i < n && p[i] == x);
}

/// The values of a sequence of scalars.
pub open spec fn scalars_view(s: Seq<Scalar>) -> Seq<int> {
    s.map_values(|x: Scalar| x@)
}

/// The views of several decks.
pub open spec fn decks_view(decks: Seq<Vec<MaskedCard>>) -> Seq<Seq<(int, int)>> {
    decks.map_values(|d: Vec<MaskedCard>| deck_view(d@))
}

/// Apply `out[i] = remask(deck[perm[i]], rand[i])`: how a permutation and
/// per-card randomness turn one deck into another.
fn apply(agg: &AggregateKey, deck: &[MaskedCard], perm: &[usize], rand: &[Scalar]) -> (out: Vec<
    MaskedCard,
>)
    requires
        forall|i: int| 0 <= i < perm@.len() && i < rand@.len() ==> #[trigger] perm@[i] < deck@.len(),
    ensures
        deck_view(out@) == applied(agg@, deck_view(deck@), perm@, scalars_view(rand@)),
{
    let len = if perm.len() <= rand.len() {
        perm.len()
    } else {
        rand.len()
    };
    let mut out: Vec<MaskedCard> = Vec::new();
    let mut i: usize = 0;
    while i < len
        invariant
            i <= len,
            len == if perm@.len() <= rand@.len() {
                perm@.len()
            } else {
                rand@.len()
            },
            forall|k: int| 0 <= k < perm@.len() && k < rand@.len() ==> #[trigger] perm@[k] < deck@.len(),
            out@.len() == i,
            forall|k: int|
                0 <= k < i ==> (#[trigger] out@[k])@ == remasked(
                    agg@,
                    deck@[perm@[k] as int]@,
                    rand@[k]@,
                ),
        decreases len - i,
    {
        out.push(ElGamalCrypto::remask_with(agg, &deck[perm[i]], &rand[i]));
        i = i + 1;
    }
    assert(deck_view(out@) =~= applied(agg@, deck_view(deck@), perm@, scalars_view(rand@)));
    out
}

/// Append the points `c1, c2` of every card of `deck` to `pts`.
fn push_deck(pts: &mut Vec<Point>, deck: &[MaskedCard])
    ensures
        logs_of(final(pts)@) == logs_of(old(pts)@) + deck_points(deck_view(deck@)),
{
    let mut i: usize = 0;
    while i < deck.len()
        invariant
            0 <= i <= deck@.len(),
            logs_of(pts@) == logs_of(old(pts)@) + deck_points(deck_view(deck@.take(i as int))),
        decreases deck@.len() - i,
    {
        let ghost before = logs_of(pts@);
        pts.push(deck[i].c1);
        pts.push(deck[i].c2);
        assert(logs_of(pts@) =~= before + seq![deck@[i as int].c1@, deck@[i as int].c2@]);
        i = i + 1;
        let ghost taken = deck_view(deck@.take(i as int));
        assert(taken.drop_last() =~= deck_view(deck@.take(i - 1)));
        assert(taken.last() == deck@[i - 1]@);
        assert(deck_points(taken) == deck_points(taken.drop_last()) + seq![
            taken.last().0,
            taken.last().1,
        ]);
    }
    assert(deck@.take(deck@.len() as int) =~= deck@);
}

/// Flatten decks into the point sequence of the Fiat–Shamir challenge: the
/// input, the output, then every intermediate deck.
fn transcript_points(
    input: &[MaskedCard],
    output: &[MaskedCard],
    intermediates: &[Vec<MaskedCard>],
) -> (pts: Vec<Point>)
    ensures
        logs_of(pts@) == transcript_logs(
            deck_view(input@),
            deck_view(output@),
            decks_view(intermediates@),
        ),
{
    let mut pts: Vec<Point> = Vec::new();
    assert(logs_of(pts@) =~= Seq::<int>::empty());
    push_deck(&mut pts, input);
    push_deck(&mut pts, output);
    let ghost start = logs_of(pts@);
    let mut j: usize = 0;
    while j < intermediates.len()
        invariant
            0 <= j <= intermediates@.len(),
            logs_of(pts@) == start + decks_points(decks_view(intermediates@.take(j as int))),
        decreases intermediates@.len() - j,
    {
        push_deck(&mut pts, intermediates[j].as_slice());
        j = j + 1;
        assert(decks_view(intermediates@.take(j as int)).drop_last() =~= decks_view(
            intermediates@.take(j - 1),
        ));
        assert(start + decks_points(decks_view(intermediates@.take(j as int))) =~= start
            + decks_points(decks_view(intermediates@.take(j - 1))) + deck_points(
            deck_view(intermediates@[j - 1]@),
        ));
    }
    assert(intermediates@.take(intermediates@.len() as int) =~= intermediates@);
    pts
}

/// Whether two decks hold the same cards, position by position.
fn decks_equal(a: &[MaskedCard], b: &[MaskedCard]) -> (eq: bool)
    ensures
        eq == (deck_view(a@) == deck_view(b@)),
{
    if a.len() != b.len() {
        assert(deck_view(a@).len() != deck_view(b@).len());
        return false;
    }
    let mut i: usize = 0;
    while i < a.len()
        invariant
            0 <= i <= a@.len(),
            a@.len() == b@.len(),
            forall|k: int| 0 <= k < i ==> (#[trigger] a@[k])@ == b@[k]@,
        decreases a@.len() - i,
    {
        if !a[i].c1.equals(&b[i].c1) || !a[i].c2.equals(&b[i].c2) {
            assert(deck_view(a@)[i as int] != deck_view(b@)[i as int]);
            return false;
        }
        i = i + 1;
    }
    assert(deck_view(a@) =~= deck_view(b@));
    true
}

/// The domain-separation label of shuffle transcripts, `b"pkmental/shuffle"`.
pub open spec fn shuffle_label() -> Seq<u8> {
    seq![112u8, 107, 109, 101, 110, 116, 97, 108, 47, 115, 104, 117, 102, 102, 108, 101]
}

fn shuffle_label_bytes() -> (b: Vec<u8>)
    ensures
        b@ == shuffle_label(),
{
    let b = vec![112u8, 107, 109, 101, 110, 116, 97, 108, 47, 115, 104, 117, 102, 102, 108, 101];
    assert(b@ == shuffle_label());
    b
}

/// One round's revealed linkage: a permutation and the per-card re-mask
/// randomness that maps one deck onto another.
#[derive(Clone, Debug)]
struct RoundResponse {
    perm: Vec<usize>,
    rand: Vec<Scalar>,
}

/// Proof that one deck is a permutation-plus-re-mask of another.
#[derive(Clone, Debug)]
pub struct ShuffleProof {
    intermediates: Vec<Vec<MaskedCard>>,
    responses: Vec<RoundResponse>,
}

/// The view of a round response: its permutation and its randomness.
spec fn response_view(r: RoundResponse) -> (Seq<usize>, Seq<int>) {
    (r.perm@, scalars_view(r.rand@))
}

impl View for ShuffleProof {
    /// The intermediate decks and the round responses.
    type V = (Seq<Seq<(int, int)>>, Seq<(Seq<usize>, Seq<int>)>);

    closed spec fn view(&self) -> (Seq<Seq<(int, int)>>, Seq<(Seq<usize>, Seq<int>)>) {
        (decks_view(self.intermediates@), self.responses@.map_values(|r: RoundResponse| response_view(r)))
    }
}

/// Whether two round responses hold the same permutation and the same
/// randomness.
fn responses_equal(a: &RoundResponse, b: &RoundResponse) -> (eq: bool)
    ensures
        eq == (response_view(*a) == response_view(*b)),
{
    if a.perm.len() != b.perm.len() || a.rand.len() != b.rand.len() {
        assert(a.perm@.len() != b.perm@.len() || scalars_view(a.rand@).len() != scalars_view(
            b.rand@,
        ).len());
        return false;
    }
    let mut i: usize = 0;
    while i < a.perm.len()
        invariant
            0 <= i <= a.perm@.len(),
            a.perm@.len() == b.perm@.len(),
            forall|k: int| 0 <= k < i ==> a.perm@[k] == b.perm@[k],
        decreases a.perm@.len() - i,
    {
        if a.perm[i] != b.perm[i] {
            assert(a.perm@[i as int] != b.perm@[i as int]);
            return false;
        }
        i = i + 1;
    }
    assert(a.perm@ =~= b.perm@);
    let mut j: usize = 0;
    while j < a.rand.len()
        invariant
            0 <= j <= a.rand@.len(),
            a.rand@.len() == b.rand@.len(),
            a.perm@ == b.perm@,
            forall|k: int| 0 <= k < j ==> (#[trigger] a.rand@[k])@ == b.rand@[k]@,
        decreases a.rand@.len() - j,
    {
        if a.rand[j] != b.rand[j] {
            assert(scalars_view(a.rand@)[j as int] != scalars_view(b.rand@)[j as int]);
            return false;
        }
        j = j + 1;
    }
    assert(scalars_view(a.rand@) =~= scalars_view(b.rand@));
    true
}

impl PartialEq for ShuffleProof {
    /// Whether two shuffle proofs hold the same intermediate decks and the same
    /// round responses.
    fn eq(&self, other: &ShuffleProof) -> (r: bool) {
        if self.intermediates.len() != other.intermediates.len() || self.responses.len()
            != other.responses.len() {
            assert(self@.0.len() != other@.0.len() || self@.1.len() != other@.1.len());
            return false;
        }
        let mut i: usize = 0;
        while i < self.intermediates.len()
            invariant
                0 <= i <= self.intermediates@.len(),
                self.intermediates@.len() == other.intermediates@.len(),
                forall|k: int| 0 <= k < i ==> #[trigger] self@.0[k] == other@.0[k],
            decreases self.intermediates@.len() - i,
        {
            if !decks_equal(self.intermediates[i].as_slice(), other.intermediates[i].as_slice()) {
                assert(self@.0[i as int] != other@.0[i as int]);
                return false;
            }
            i = i + 1;
        }
        assert(self@.0 =~= other@.0);
        let mut j: usize = 0;
        while j < self.responses.len()
            invariant
                0 <= j <= self.responses@.len(),
                self.responses@.len() == other.responses@.len(),
                self@.0 == other@.0,
                forall|k: int| 0 <= k < j ==> #[trigger] self@.1[k] == other@.1[k],
            decreases self.responses@.len() - j,
        {
            if !responses_equal(&self.responses[j], &other.responses[j]) {
                assert(self@.1[j as int] != other@.1[j as int]);
                return false;
            }
            j = j + 1;
        }
        assert(self@.1 =~= other@.1);
        true
    }
}

impl PartialEqSpecImpl for ShuffleProof {
    open spec fn obeys_eq_spec() -> bool {
        true
    }

    open spec fn eq_spec(&self, other: &ShuffleProof) -> bool {
        self@ == other@
    }
}

impl Eq for ShuffleProof {

}

/// The challenge bits of a shuffle: `ROUNDS` Fiat–Shamir bits bound to the
/// input, the output and every intermediate deck.
pub open spec fn challenge_bits(
    input: Seq<(int, int)>,
    output: Seq<(int, int)>,
    intermediates: Seq<Seq<(int, int)>>,
) -> Seq<bool> {
    Seq::new(
        ROUNDS as nat,
        |j: int| fiat_shamir_bit(shuffle_label(), transcript_logs(input, output, intermediates), j),
    )
}

/// A round response has the right shape: a permutation of `0..n` and `n`
/// scalars.
pub open spec fn response_well_formed(resp: (Seq<usize>, Seq<int>), n: int) -> bool {
    is_perm(resp.0, n) && resp.1.len() == n
}

/// The linkage a round response reveals holds: for bit 1 the output is the
/// intermediate deck permuted and re-masked, for bit 0 the intermediate deck is
/// the input permuted and re-masked.
pub open spec fn linkage_holds(
    h: int,
    input: Seq<(int, int)>,
    output: Seq<(int, int)>,
    intermediate: Seq<(int, int)>,
    resp: (Seq<usize>, Seq<int>),
    bit: bool,
) -> bool {
    if bit {
        applied(h, intermediate, resp.0, resp.1) == output
    } else {
        applied(h, input, resp.0, resp.1) == intermediate
    }
}

/// The first intermediate deck, from position `j` on, whose length is not `n`.
pub open spec fn first_wrong_length(intermediates: Seq<Seq<(int, int)>>, n: int, j: int) -> Option<
    int,
>
    decreases intermediates.len() - j,
{
    if j < 0 || j >= intermediates.len() {
        None
    } else if intermediates[j].len() != n {
        Some(j)
    } else {
        first_wrong_length(intermediates, n, j + 1)
    }
}

/// The first round, from position `j` on, whose response is malformed or whose
/// revealed linkage fails.
pub open spec fn first_failed_round(
    h: int,
    input: Seq<(int, int)>,
    output: Seq<(int, int)>,
    proof: (Seq<Seq<(int, int)>>, Seq<(Seq<usize>, Seq<int>)>),
    bits: Seq<bool>,
    j: int,
) -> Option<int>
    decreases proof.1.len() - j,
{
    if j < 0 || j >= proof.1.len() {
        None
    } else if !(response_well_formed(proof.1[j], input.len() as int) && linkage_holds(
        h,
        input,
        output,
        proof.0[j],
        proof.1[j],
        bits[j],
    )) {
        Some(j)
    } else {
        first_failed_round(h, input, output, proof, bits, j + 1)
    }
}

/// What verifying a shuffle proof answers: a length error when the output or
/// an intermediate deck differs in length from the input, a bad proof when the
/// proof does not have `ROUNDS` rounds or a round's response is malformed or
/// its revealed linkage fails (the first such round decides which), and
/// success otherwise.
pub open spec fn shuffle_verdict(
    h: int,
    input: Seq<(int, int)>,
    output: Seq<(int, int)>,
    proof: (Seq<Seq<(int, int)>>, Seq<(Seq<usize>, Seq<int>)>),
) -> Result<(), MpError> {
    let n = input.len() as int;
    if output.len() != n {
        Err(MpError::DeckLength { expected: n as usize, got: output.len() as usize })
    } else if proof.0.len() != ROUNDS || proof.1.len() != ROUNDS {
        Err(MpError::BadProof("shuffle round count"))
    } else {
        match first_wrong_length(proof.0, n, 0) {
            Some(j) => Err(MpError::DeckLength { expected: n as usize, got: proof.0[j].len() as usize }),
            None => match first_failed_round(
                h,
                input,
                output,
                proof,
                challenge_bits(input, output, proof.0),
                0,
            ) {
                None => Ok(()),
                Some(j) => if response_well_formed(proof.1[j], n) {
                    Err(MpError::BadProof("shuffle linkage"))
                } else {
                    Err(MpError::BadProof("shuffle response shape"))
                },
            },
        }
    }
}

/// Verify a shuffle proof.
pub fn verify(
    agg: &AggregateKey,
    input: &[MaskedCard],
    output: &[MaskedCard],
    proof: &ShuffleProof,
) -> (res: Result<(), MpError>)
    ensures
        res == shuffle_verdict(agg@, deck_view(input@), deck_view(output@), proof@),
{
    let n = input.len();
    if output.len() != n {
        return Err(MpError::DeckLength { expected: n, got: output.len() });
    }
    if proof.intermediates.len() != ROUNDS || proof.responses.len() != ROUNDS {
        return Err(MpError::BadProof("shuffle round count"));
    }
    let ghost iv = deck_view(input@);
    let ghost ov = deck_view(output@);
    let ghost pv = proof@;
    assert(ov.len() == n && pv.0.len() == ROUNDS && pv.1.len() == ROUNDS);
    let mut k: usize = 0;
    while k < ROUNDS
        invariant
            k <= ROUNDS,
            n == input@.len(),
            pv == proof@,
            iv == deck_view(input@),
            ov == deck_view(output@),
            ov.len() == n && pv.0.len() == ROUNDS && pv.1.len() == ROUNDS,
            proof.intermediates@.len() == ROUNDS,
            forall|m: int| 0 <= m < k ==> (#[trigger] proof.intermediates@[m])@.len() == n,
            first_wrong_length(pv.0, n as int, 0) == first_wrong_length(pv.0, n as int, k as int),
        decreases ROUNDS - k,
    {
        assert(pv.0[k as int].len() == proof.intermediates@[k as int]@.len());
        if proof.intermediates[k].len() != n {
            assert(first_wrong_length(pv.0, n as int, k as int) == Some(k as int));
            return Err(MpError::DeckLength { expected: n, got: proof.intermediates[k].len() });
        }
        assert(first_wrong_length(pv.0, n as int, k as int) == first_wrong_length(
            pv.0,
            n as int,
            k + 1,
        ));
        k = k + 1;
    }
    assert(first_wrong_length(pv.0, n as int, ROUNDS as int) == None::<int>);
    let bits = fiat_shamir_bits(
        shuffle_label_bytes().as_slice(),
        transcript_points(input, output, proof.intermediates.as_slice()).as_slice(),
        ROUNDS,
    );
    assert(bits@ =~= challenge_bits(iv, ov, pv.0));
    let mut j: usize = 0;
    while j < ROUNDS
        invariant
            j <= ROUNDS,
            n == input@.len(),
            n == output@.len(),
            iv == deck_view(input@),
            ov == deck_view(output@),
            pv == proof@,
            proof.intermediates@.len() == ROUNDS,
            proof.responses@.len() == ROUNDS,
            forall|m: int| 0 <= m < ROUNDS ==> (#[trigger] proof.intermediates@[m])@.len() == n,
            bits@ == challenge_bits(iv, ov, pv.0),
            ov.len() == n && pv.0.len() == ROUNDS && pv.1.len() == ROUNDS,
            first_wrong_length(pv.0, n as int, 0) == None::<int>,
            first_failed_round(agg@, iv, ov, pv, bits@, 0) == first_failed_round(
                agg@,
                iv,
                ov,
                pv,
                bits@,
                j as int,
            ),
        decreases ROUNDS - j,
    {
        let resp = &proof.responses[j];
        assert(pv.1[j as int] == response_view(*resp));
        assert(pv.1[j as int].0 == resp.perm@ && pv.1[j as int].1.len() == resp.rand@.len());
        if !is_permutation(resp.perm.as_slice(), n) || resp.rand.len() != n {
            assert(!response_well_formed(pv.1[j as int], n as int));
            assert(first_failed_round(agg@, iv, ov, pv, bits@, j as int) == Some(j as int));
            return Err(MpError::BadProof("shuffle response shape"));
        }
        assert(response_well_formed(pv.1[j as int], n as int));
        let e_j = proof.intermediates[j].as_slice();
        assert(pv.0[j as int] == deck_view(e_j@));
        let bit = bits[j];
        let recomputed = if bit {
            apply(agg, e_j, resp.perm.as_slice(), resp.rand.as_slice())
        } else {
            apply(agg, input, resp.perm.as_slice(), resp.rand.as_slice())
        };
        let target: &[MaskedCard] = if bit {
            output
        } else {
            e_j
        };
        assert(pv.1[j as int].1 == scalars_view(resp.rand@));
        if !decks_equal(recomputed.as_slice(), target) {
            assert(!linkage_holds(agg@, iv, ov, pv.0[j as int], pv.1[j as int], bits@[j as int]));
            assert(first_failed_round(agg@, iv, ov, pv, bits@, j as int) == Some(j as int));
            return Err(MpError::BadProof("shuffle linkage"));
        }
        assert(linkage_holds(agg@, iv, ov, pv.0[j as int], pv.1[j as int], bits@[j as int]));
        assert(first_failed_round(agg@, iv, ov, pv, bits@, j as int) == first_failed_round(
            agg@,
            iv,
            ov,
            pv,
            bits@,
            j + 1,
        ));
        j = j + 1;
    }
    assert(first_failed_round(agg@, iv, ov, pv, bits@, ROUNDS as int) == None::<int>);
    Ok(())
}

/// No round from position `k` on fails when each of them is well formed and
/// its linkage holds.
proof fn lemma_no_failed_round(
    h: int,
    input: Seq<(int, int)>,
    output: Seq<(int, int)>,
    proof: (Seq<Seq<(int, int)>>, Seq<(Seq<usize>, Seq<int>)>),
    bits: Seq<bool>,
    k: int,
)
    requires
        0 <= k,
        forall|j: int|
            k <= j < proof.1.len() ==> response_well_formed(#[trigger] proof.1[j], input.len() as int)
                && linkage_holds(h, input, output, proof.0[j], proof.1[j], bits[j]),
    ensures
        first_failed_round(h, input, output, proof, bits, k) == None::<int>,
    decreases proof.1.len() - k,
{
    if k < proof.1.len() {
        lemma_no_failed_round(h, input, output, proof, bits, k + 1);
    }
}

/// No intermediate deck from position `k` on has the wrong length when all of
/// them have length `n`.
proof fn lemma_no_wrong_length(intermediates: Seq<Seq<(int, int)>>, n: int, k: int)
    requires
        0 <= k,
        forall|j: int| k <= j < intermediates.len() ==> (#[trigger] intermediates[j]).len() == n,
    ensures
        first_wrong_length(intermediates, n, k) == None::<int>,
    decreases intermediates.len() - k,
{
    if k < intermediates.len() {
        lemma_no_wrong_length(intermediates, n, k + 1);
    }
}

/// The bit-1 response of the honest prover opens the intermediate deck onto
/// the output: with `tau[i] = sigma⁻¹[pi[i]]` and `b[i] = rho[i] − alpha[tau[i]]`,
/// `tau` is a permutation and re-masking `E = apply(deck, sigma, alpha)` by
/// `(tau, b)` gives `apply(deck, pi, rho)`.
proof fn lemma_reveal_output_link(
    h: int,
    deck: Seq<(int, int)>,
    pi: Seq<usize>,
    rho: Seq<int>,
    sigma: Seq<usize>,
    alpha: Seq<int>,
    sigma_inv: Seq<usize>,
    tau: Seq<usize>,
    b: Seq<int>,
)
    requires
        is_perm(pi, deck.len() as int),
        is_perm(sigma, deck.len() as int),
        is_perm(sigma_inv, deck.len() as int),
        rho.len() == deck.len(),
        alpha.len() == deck.len(),
        forall|x: int| 0 <= x < deck.len() ==> sigma[#[trigger] sigma_inv[x] as int] == x,
        tau.len() == deck.len(),
        forall|i: int| 0 <= i < deck.len() ==> #[trigger] tau[i] == sigma_inv[pi[i] as int],
        b.len() == deck.len(),
        forall|i: int|
            0 <= i < deck.len() ==> #[trigger] b[i] == (rho[i] - alpha[tau[i] as int])
                % group_order(),
    ensures
        is_perm(tau, deck.len() as int),
        applied(h, applied(h, deck, sigma, alpha), tau, b) == applied(h, deck, pi, rho),
{
    let n = deck.len() as int;
    assert forall|i: int| 0 <= i < n implies #[trigger] tau[i] < n by {
        assert(pi[i] < n);
    }
    assert forall|i: int, j: int| 0 <= i < j < n implies tau[i] != tau[j] by {
        assert(pi[i] != pi[j]);
        if tau[i] == tau[j] {
            assert(sigma[sigma_inv[pi[i] as int] as int] == pi[i]);
            assert(sigma[sigma_inv[pi[j] as int] as int] == pi[j]);
        }
    }
    let e = applied(h, deck, sigma, alpha);
    assert forall|i: int| 0 <= i < n implies #[trigger] applied(h, e, tau, b)[i] == applied(
        h,
        deck,
        pi,
        rho,
    )[i] by {
        let t = tau[i] as int;
        assert(sigma[t] == pi[i]);
        lemma_remask_composes(h, deck[pi[i] as int], alpha[t], rho[i]);
    }
    assert(applied(h, e, tau, b) =~= applied(h, deck, pi, rho));
}

/// The response the honest prover gives in a round with intermediate shuffle
/// `(sigma, alpha)` and challenge `bit`, for the real shuffle `(pi, rho)`:
/// bit 0 reveals `(sigma, alpha)`; bit 1 reveals `tau[i] = sigma⁻¹[pi[i]]`
/// and `b[i] = rho[i] − alpha[tau[i]]`.
pub open spec fn honest_response(
    pi: Seq<usize>,
    rho: Seq<int>,
    sigma: Seq<usize>,
    alpha: Seq<int>,
    bit: bool,
) -> (Seq<usize>, Seq<int>) {
    if bit {
        let tau = Seq::new(pi.len(), |i: int| inverse(sigma)[pi[i] as int]);
        (tau, Seq::new(pi.len(), |i: int| (rho[i] - alpha[tau[i] as int]) % group_order()))
    } else {
        (sigma, alpha)
    }
}

/// The intermediate decks of the honest prover: `E_j = apply(deck, sigma_j, alpha_j)`.
pub open spec fn honest_intermediates(
    h: int,
    deck: Seq<(int, int)>,
    sigmas: Seq<Seq<usize>>,
    alphas: Seq<Seq<int>>,
) -> Seq<Seq<(int, int)>> {
    Seq::new(ROUNDS as nat, |j: int| applied(h, deck, sigmas[j], alphas[j]))
}

/// The proof that the honest prover builds from its randomness: the
/// intermediate decks, and for each round the response to its challenge bit.
pub open spec fn honest_proof(
    h: int,
    deck: Seq<(int, int)>,
    pi: Seq<usize>,
    rho: Seq<int>,
    sigmas: Seq<Seq<usize>>,
    alphas: Seq<Seq<int>>,
) -> (Seq<Seq<(int, int)>>, Seq<(Seq<usize>, Seq<int>)>) {
    let intermediates = honest_intermediates(h, deck, sigmas, alphas);
    let bits = challenge_bits(deck, applied(h, deck, pi, rho), intermediates);
    (
        intermediates,
        Seq::new(ROUNDS as nat, |j: int| honest_response(pi, rho, sigmas[j], alphas[j], bits[j])),
    )
}

/// The randomness of an honest shuffle of `n` cards: the real shuffle is a
/// permutation with `n` scalars, and so is each round's intermediate shuffle.
pub open spec fn honest_randomness(
    n: int,
    pi: Seq<usize>,
    rho: Seq<int>,
    sigmas: Seq<Seq<usize>>,
    alphas: Seq<Seq<int>>,
) -> bool {
    &&& is_perm(pi, n)
    &&& rho.len() == n
    &&& sigmas.len() == ROUNDS
    &&& alphas.len() == ROUNDS
    &&& forall|j: int| 0 <= j < ROUNDS ==> is_perm(#[trigger] sigmas[j], n) && alphas[j].len() == n
}

/// Completeness of the shuffle proof: whatever randomness the honest prover
/// uses, its output and proof pass verification.
pub proof fn lemma_honest_shuffle_verifies(
    h: int,
    deck: Seq<(int, int)>,
    pi: Seq<usize>,
    rho: Seq<int>,
    sigmas: Seq<Seq<usize>>,
    alphas: Seq<Seq<int>>,
)
    requires
        deck.len() <= usize::MAX,
        honest_randomness(deck.len() as int, pi, rho, sigmas, alphas),
    ensures
        shuffle_verdict(
            h,
            deck,
            applied(h, deck, pi, rho),
            honest_proof(h, deck, pi, rho, sigmas, alphas),
        ) == Ok::<(), MpError>(()),
{
    let n = deck.len() as int;
    let output = applied(h, deck, pi, rho);
    let proof = honest_proof(h, deck, pi, rho, sigmas, alphas);
    let bits = challenge_bits(deck, output, proof.0);
    assert forall|j: int| 0 <= j < ROUNDS implies (#[trigger] proof.0[j]).len() == n by {}
    lemma_no_wrong_length(proof.0, n, 0);
    assert forall|j: int| 0 <= j < proof.1.len() implies response_well_formed(
        #[trigger] proof.1[j],
        n,
    ) && linkage_holds(h, deck, output, proof.0[j], proof.1[j], bits[j]) by {
        let sigma = sigmas[j];
        let alpha = alphas[j];
        assert(is_perm(sigma, n) && alpha.len() == n);
        if bits[j] {
            let resp = proof.1[j];
            lemma_inverse(sigma, n);
            lemma_reveal_output_link(
                h,
                deck,
                pi,
                rho,
                sigma,
                alpha,
                inverse(sigma),
                resp.0,
                resp.1,
            );
        }
    }
    lemma_no_failed_round(h, deck, output, proof, bits, 0);
}

/// The permutation `sigma∘tau`: position `i` takes what `sigma` put at
/// position `tau[i]`.
pub open spec fn composed(sigma: Seq<usize>, tau: Seq<usize>) -> Seq<usize> {
    Seq::new(tau.len(), |i: int| sigma[tau[i] as int])
}

/// The randomness of two re-masks in a row: `alpha[tau[i]] + b[i]` mod `r`.
pub open spec fn composed_randomness(alpha: Seq<int>, tau: Seq<usize>, b: Seq<int>) -> Seq<int> {
    Seq::new(tau.len(), |i: int| (alpha[tau[i] as int] + b[i]) % group_order())
}

/// Both linkages of a round compose: when `E = apply(input, sigma, alpha)` and
/// `output = apply(E, tau, b)` with permutations `sigma` and `tau`, the output
/// is itself a permutation-plus-re-mask of the input, by `sigma∘tau`. So an
/// output that is not a shuffle of the input leaves at most one of a round's
/// two linkages open to the prover.
pub proof fn lemma_links_compose(
    h: int,
    input: Seq<(int, int)>,
    sigma: Seq<usize>,
    alpha: Seq<int>,
    tau: Seq<usize>,
    b: Seq<int>,
)
    requires
        is_perm(sigma, input.len() as int),
        alpha.len() == input.len(),
        is_perm(tau, input.len() as int),
        b.len() == input.len(),
    ensures
        is_perm(composed(sigma, tau), input.len() as int),
        composed_randomness(alpha, tau, b).len() == input.len(),
        applied(h, applied(h, input, sigma, alpha), tau, b) == applied(
            h,
            input,
            composed(sigma, tau),
            composed_randomness(alpha, tau, b),
        ),
{
    let n = input.len() as int;
    let c = composed(sigma, tau);
    assert forall|i: int| 0 <= i < n implies #[trigger] c[i] < n by {
        assert(tau[i] < n);
    }
    assert forall|i: int, j: int| 0 <= i < j < n implies c[i] != c[j] by {
        let p = tau[i] as int;
        let q = tau[j] as int;
        assert(p != q);
        assert(0 <= p < n && 0 <= q < n);
        if p < q {
            assert(sigma[p] != sigma[q]);
        } else {
            assert(sigma[q] != sigma[p]);
        }
    }
    let e = applied(h, input, sigma, alpha);
    let r = composed_randomness(alpha, tau, b);
    assert forall|i: int| 0 <= i < n implies #[trigger] applied(h, e, tau, b)[i] == applied(
        h,
        input,
        c,
        r,
    )[i] by {
        let t = tau[i] as int;
        assert(0 <= t < n);
        lemma_remask_twice(h, input[sigma[t] as int], alpha[t], b[i]);
    }
    assert(applied(h, e, tau, b) =~= applied(h, input, c, r));
}

/// A permutation-plus-re-mask keeps the cards: under the secret `x` of the key,
/// card `i` of `apply(input, perm, rand)` decrypts to what card `perm[i]` of
/// the input decrypts to.
pub proof fn lemma_shuffle_keeps_plaintexts(
    x: int,
    input: Seq<(int, int)>,
    perm: Seq<usize>,
    rand: Seq<int>,
)
    requires
        rand.len() == perm.len(),
    ensures
        forall|i: int|
            0 <= i < perm.len() ==> plaintext(#[trigger] applied(x, input, perm, rand)[i], x)
                == plaintext(input[perm[i] as int], x),
{
    assert forall|i: int| 0 <= i < perm.len() implies plaintext(
        #[trigger] applied(x, input, perm, rand)[i],
        x,
    ) == plaintext(input[perm[i] as int], x) by {
        lemma_remask_preserves_plaintext(input[perm[i] as int], x, rand[i]);
    }
}

/// Every intermediate deck from position `k` on has length `n` when none is
/// found with another length.
proof fn lemma_found_no_wrong_length(intermediates: Seq<Seq<(int, int)>>, n: int, k: int)
    requires
        0 <= k,
        first_wrong_length(intermediates, n, k) == None::<int>,
    ensures
        forall|j: int| k <= j < intermediates.len() ==> (#[trigger] intermediates[j]).len() == n,
    decreases intermediates.len() - k,
{
    if k < intermediates.len() {
        lemma_found_no_wrong_length(intermediates, n, k + 1);
    }
}

/// Every round from position `k` on is well formed and its linkage holds when
/// no failed round is found.
proof fn lemma_found_no_failed_round(
    h: int,
    input: Seq<(int, int)>,
    output: Seq<(int, int)>,
    proof: (Seq<Seq<(int, int)>>, Seq<(Seq<usize>, Seq<int>)>),
    bits: Seq<bool>,
    k: int,
)
    requires
        0 <= k,
        first_failed_round(h, input, output, proof, bits, k) == None::<int>,
    ensures
        forall|j: int|
            k <= j < proof.1.len() ==> response_well_formed(#[trigger] proof.1[j], input.len() as int)
                && linkage_holds(h, input, output, proof.0[j], proof.1[j], bits[j]),
    decreases proof.1.len() - k,
{
    if k < proof.1.len() {
        lemma_found_no_failed_round(h, input, output, proof, bits, k + 1);
    }
}

/// What an accepted shuffle proof shows: the output and every intermediate deck
/// have the input's length, there are `ROUNDS` rounds, and in each round the
/// response is a permutation with `n` scalars whose linkage, the one that the
/// round's challenge bit selects, holds.
pub proof fn lemma_accepted_shuffle_links(
    h: int,
    input: Seq<(int, int)>,
    output: Seq<(int, int)>,
    proof: (Seq<Seq<(int, int)>>, Seq<(Seq<usize>, Seq<int>)>),
)
    requires
        shuffle_verdict(h, input, output, proof) == Ok::<(), MpError>(()),
    ensures
        output.len() == input.len(),
        proof.0.len() == ROUNDS,
        proof.1.len() == ROUNDS,
        forall|j: int|
            0 <= j < ROUNDS ==> (#[trigger] proof.0[j]).len() == input.len() && response_well_formed(
                proof.1[j],
                input.len() as int,
            ) && linkage_holds(
                h,
                input,
                output,
                proof.0[j],
                proof.1[j],
                challenge_bits(input, output, proof.0)[j],
            ),
{
    let n = input.len() as int;
    let bits = challenge_bits(input, output, proof.0);
    lemma_found_no_wrong_length(proof.0, n, 0);
    lemma_found_no_failed_round(h, input, output, proof, bits, 0);
    assert forall|j: int| 0 <= j < ROUNDS implies (#[trigger] proof.0[j]).len() == n
        && response_well_formed(proof.1[j], n) && linkage_holds(
        h,
        input,
        output,
        proof.0[j],
        proof.1[j],
        bits[j],
    ) by {
        assert(response_well_formed(proof.1[j], n));
    }
}

/// The deck a round's revealed linkage starts from: the intermediate deck for
/// bit 1, the input for bit 0.
pub open spec fn round_source(
    input: Seq<(int, int)>,
    intermediates: Seq<Seq<(int, int)>>,
    bits: Seq<bool>,
    j: int,
) -> Seq<(int, int)> {
    if bits[j] {
        intermediates[j]
    } else {
        input
    }
}

/// The deck a round's revealed linkage ends at: the output for bit 1, the
/// intermediate deck for bit 0.
pub open spec fn round_target(
    output: Seq<(int, int)>,
    intermediates: Seq<Seq<(int, int)>>,
    bits: Seq<bool>,
    j: int,
) -> Seq<(int, int)> {
    if bits[j] {
        output
    } else {
        intermediates[j]
    }
}

/// What an accepted shuffle proof shows of each card: in every round `j`, with
/// the revealed permutation `perm` and randomness `rand`, card `i` of the
/// round's target deck is card `perm[i]` of its source deck re-masked by
/// `rand[i]` in both components: `(c1 + rand[i], c2 + h·rand[i])` modulo `r`.
pub proof fn lemma_accepted_shuffle_remasks(
    h: int,
    input: Seq<(int, int)>,
    output: Seq<(int, int)>,
    proof: (Seq<Seq<(int, int)>>, Seq<(Seq<usize>, Seq<int>)>),
    j: int,
    i: int,
)
    requires
        shuffle_verdict(h, input, output, proof) == Ok::<(), MpError>(()),
        0 <= j < ROUNDS,
        0 <= i < input.len(),
    ensures
        ({
            let bits = challenge_bits(input, output, proof.0);
            let source = round_source(input, proof.0, bits, j);
            let target = round_target(output, proof.0, bits, j);
            let perm = proof.1[j].0;
            let rand = proof.1[j].1;
            &&& perm[i] < input.len()
            &&& target.len() == input.len()
            &&& target[i].0 == (source[perm[i] as int].0 + rand[i]) % group_order()
            &&& target[i].1 == (source[perm[i] as int].1 + (h * rand[i]) % group_order())
                % group_order()
        }),
{
    lemma_accepted_shuffle_links(h, input, output, proof);
    let n = input.len() as int;
    let bits = challenge_bits(input, output, proof.0);
    let source = round_source(input, proof.0, bits, j);
    let target = round_target(output, proof.0, bits, j);
    let perm = proof.1[j].0;
    let rand = proof.1[j].1;
    assert(proof.0[j].len() == n);
    assert(response_well_formed(proof.1[j], n));
    assert(linkage_holds(h, input, output, proof.0[j], proof.1[j], bits[j]));
    assert(applied(h, source, perm, rand) == target);
    assert(perm[i] < n);
    assert(target[i] == applied(h, source, perm, rand)[i]);
}

/// The values of a sequence of permutations held as vectors.
pub open spec fn perms_view(v: Seq<Vec<usize>>) -> Seq<Seq<usize>> {
    v.map_values(|p: Vec<usize>| p@)
}

/// The values of a sequence of scalar vectors.
pub open spec fn scalar_vecs_view(v: Seq<Vec<Scalar>>) -> Seq<Seq<int>> {
    v.map_values(|s: Vec<Scalar>| scalars_view(s@))
}

/// The honest prover with its randomness given: the real shuffle `(pi, rho)`
/// and, for each round, an intermediate shuffle `(sigma_j, alpha_j)` of the
/// input. The output is `apply(deck, pi, rho)`, the proof is
/// [`honest_proof`] of that randomness, and it verifies.
pub fn prove_with_randomness(
    agg: &AggregateKey,
    deck: &[MaskedCard],
    pi: &Vec<usize>,
    rho: &Vec<Scalar>,
    sigmas: &Vec<Vec<usize>>,
    alphas: &Vec<Vec<Scalar>>,
) -> (res: (Vec<MaskedCard>, ShuffleProof))
    requires
        honest_randomness(
            deck@.len() as int,
            pi@,
            scalars_view(rho@),
            perms_view(sigmas@),
            scalar_vecs_view(alphas@),
        ),
    ensures
        deck_view(res.0@) == applied(agg@, deck_view(deck@), pi@, scalars_view(rho@)),
        res.1@ == honest_proof(
            agg@,
            deck_view(deck@),
            pi@,
            scalars_view(rho@),
            perms_view(sigmas@),
            scalar_vecs_view(alphas@),
        ),
        shuffle_verdict(agg@, deck_view(deck@), deck_view(res.0@), res.1@) == Ok::<(), MpError>(()),
{
    let n = deck.len();
    let ghost dv = deck_view(deck@);
    let ghost rv = scalars_view(rho@);
    let ghost sv = perms_view(sigmas@);
    let ghost av = scalar_vecs_view(alphas@);
    let output = apply(agg, deck, pi.as_slice(), rho.as_slice());
    let ghost ov = deck_view(output@);
    let mut intermediates: Vec<Vec<MaskedCard>> = Vec::new();
    let mut j: usize = 0;
    while j < ROUNDS
        invariant
            j <= ROUNDS,
            n == deck@.len(),
            dv == deck_view(deck@),
            sv == perms_view(sigmas@),
            av == scalar_vecs_view(alphas@),
            honest_randomness(n as int, pi@, rv, sv, av),
            intermediates@.len() == j,
            forall|m: int|
                0 <= m < j ==> deck_view((#[trigger] intermediates@[m])@) == applied(
                    agg@,
                    dv,
                    sv[m],
                    av[m],
                ),
        decreases ROUNDS - j,
    {
        assert(sv[j as int] == sigmas@[j as int]@ && av[j as int] == scalars_view(alphas@[j as int]@));
        intermediates.push(apply(agg, deck, sigmas[j].as_slice(), alphas[j].as_slice()));
        j = j + 1;
    }
    let ghost iv = decks_view(intermediates@);
    assert(iv =~= honest_intermediates(agg@, dv, sv, av));
    let bits = fiat_shamir_bits(
        shuffle_label_bytes().as_slice(),
        transcript_points(deck, output.as_slice(), intermediates.as_slice()).as_slice(),
        ROUNDS,
    );
    assert(bits@ =~= challenge_bits(dv, ov, iv));
    let mut responses: Vec<RoundResponse> = Vec::new();
    let mut j: usize = 0;
    while j < ROUNDS
        invariant
            j <= ROUNDS,
            n == deck@.len(),
            rv == scalars_view(rho@),
            sv == perms_view(sigmas@),
            av == scalar_vecs_view(alphas@),
            honest_randomness(n as int, pi@, rv, sv, av),
            bits@.len() == ROUNDS,
            responses@.len() == j,
            forall|m: int|
                0 <= m < j ==> #[trigger] response_view(responses@[m]) == honest_response(
                    pi@,
                    rv,
                    sv[m],
                    av[m],
                    bits@[m],
                ),
        decreases ROUNDS - j,
    {
        let sigma = &sigmas[j];
        let alpha = &alphas[j];
        assert(sv[j as int] == sigma@ && av[j as int] == scalars_view(alpha@));
        assert(is_perm(sigma@, n as int) && alpha@.len() == n);
        let response = if bits[j] {
            // Reveal E_j -> output: tau[i] = sigma⁻¹[pi[i]], b[i] = rho[i] − alpha[tau[i]].
            let sigma_inv = invert(sigma.as_slice());
            proof {
                lemma_invert_is_inverse(sigma@, sigma_inv@, n as int);
                lemma_inverse(sigma@, n as int);
            }
            let mut tau: Vec<usize> = Vec::new();
            let mut b: Vec<Scalar> = Vec::new();
            let mut i: usize = 0;
            while i < n
                invariant
                    i <= n,
                    pi@.len() == n,
                    rho@.len() == n,
                    alpha@.len() == n,
                    sigma_inv@.len() == n,
                    forall|k: int| 0 <= k < n ==> #[trigger] pi@[k] < n,
                    forall|x: int| 0 <= x < n ==> #[trigger] sigma_inv@[x] < n,
                    tau@.len() == i,
                    b@.len() == i,
                    forall|k: int| 0 <= k < i ==> #[trigger] tau@[k] == sigma_inv@[pi@[k] as int],
                    forall|k: int|
                        0 <= k < i ==> (#[trigger] b@[k])@ == (rho@[k]@ - alpha@[tau@[k] as int]@)
                            % group_order(),
                decreases n - i,
            {
                let t = sigma_inv[pi[i]];
                tau.push(t);
                b.push(rho[i].sub(&alpha[t]));
                i = i + 1;
            }
            let response = RoundResponse { perm: tau, rand: b };
            assert(response_view(response) =~= honest_response(
                pi@,
                rv,
                sv[j as int],
                av[j as int],
                true,
            ));
            response
        } else {
            // Reveal input -> E_j.
            let response = RoundResponse { perm: sigma.clone(), rand: alpha.clone() };
            assert(response_view(response) =~= honest_response(
                pi@,
                rv,
                sv[j as int],
                av[j as int],
                false,
            ));
            response
        };
        responses.push(response);
        j = j + 1;
    }
    let proof = ShuffleProof { intermediates, responses };
    proof {
        let hp = honest_proof(agg@, dv, pi@, rv, sv, av);
        assert(proof@.1 =~= hp.1);
        assert(proof@ == hp);
        lemma_honest_shuffle_verifies(agg@, dv, pi@, rv, sv, av);
    }
    (output, proof)
}

/// Shuffle `deck` under `agg` and prove it, with randomness drawn from `rng`:
/// the real shuffle `(pi, rho)` first, then each round's intermediate shuffle,
/// every permutation by Fisher–Yates. Whatever is drawn, the permutations are
/// the Fisher–Yates shuffles of the draws, the output is the input permuted and
/// re-masked by `(pi, rho)`,
/// the proof is the honest proof of that randomness, and it verifies.
pub fn prove<R: rand::RngCore>(agg: &AggregateKey, deck: &[MaskedCard], rng: &mut R) -> (res: (
    Vec<MaskedCard>,
    ShuffleProof,
))
    ensures
        exists|pi: Seq<usize>, rho: Seq<int>, sigmas: Seq<Seq<usize>>, alphas: Seq<Seq<int>>|
            {
                &&& honest_randomness(deck@.len() as int, pi, rho, sigmas, alphas)
                &&& drawn_by_fisher_yates(pi, deck@.len() as int)
                &&& forall|j: int|
                    0 <= j < ROUNDS ==> drawn_by_fisher_yates(
                        #[trigger] sigmas[j],
                        deck@.len() as int,
                    )
                &&& deck_view(res.0@) == applied(agg@, deck_view(deck@), pi, rho)
                &&& res.1@ == honest_proof(agg@, deck_view(deck@), pi, rho, sigmas, alphas)
            },
        shuffle_verdict(agg@, deck_view(deck@), deck_view(res.0@), res.1@) == Ok::<(), MpError>(()),
{
    let n = deck.len();
    let (pi, _) = random_permutation(n, rng);
    let rho = random_scalars(n, rng);
    let mut sigmas: Vec<Vec<usize>> = Vec::new();
    let mut alphas: Vec<Vec<Scalar>> = Vec::new();
    let mut j: usize = 0;
    while j < ROUNDS
        invariant
            j <= ROUNDS,
            n == deck@.len(),
            sigmas@.len() == j,
            alphas@.len() == j,
            forall|m: int|
                0 <= m < j ==> is_perm((#[trigger] sigmas@[m])@, deck@.len() as int)
                    && alphas@[m]@.len() == deck@.len() && drawn_by_fisher_yates(
                    sigmas@[m]@,
                    deck@.len() as int,
                ),
            drawn_by_fisher_yates(pi@, deck@.len() as int),
        decreases ROUNDS - j,
    {
        let (sigma, _) = random_permutation(n, rng);
        let alpha = random_scalars(n, rng);
        let ghost old_sigmas = sigmas@;
        let ghost old_alphas = alphas@;
        sigmas.push(sigma);
        alphas.push(alpha);
        assert forall|m: int| 0 <= m <= j implies is_perm(
            (#[trigger] sigmas@[m])@,
            deck@.len() as int,
        ) && alphas@[m]@.len() == deck@.len() && drawn_by_fisher_yates(
            sigmas@[m]@,
            deck@.len() as int,
        ) by {
            if m < j {
                assert(sigmas@[m] == old_sigmas[m] && alphas@[m] == old_alphas[m]);
            }
        }
        j = j + 1;
    }
    assert(honest_randomness(
        n as int,
        pi@,
        scalars_view(rho@),
        perms_view(sigmas@),
        scalar_vecs_view(alphas@),
    )) by {
        assert forall|m: int| 0 <= m < ROUNDS implies is_perm(
            #[trigger] perms_view(sigmas@)[m],
            n as int,
        ) && scalar_vecs_view(alphas@)[m].len() == n by {
            assert(perms_view(sigmas@)[m] == sigmas@[m]@);
        }
    }
    assert forall|m: int| 0 <= m < ROUNDS implies drawn_by_fisher_yates(
        #[trigger] perms_view(sigmas@)[m],
        n as int,
    ) by {
        assert(perms_view(sigmas@)[m] == sigmas@[m]@);
    }
    prove_with_randomness(agg, deck, &pi, &rho, &sigmas, &alphas)
}

/// `n` scalars drawn from `rng`.
fn random_scalars<R: rand::RngCore>(n: usize, rng: &mut R) -> (v: Vec<Scalar>)
    ensures
        v@.len() == n,
{
    let mut v: Vec<Scalar> = Vec::new();
    let mut i: usize = 0;
    while i < n
        invariant
            i <= n,
            v@.len() == i,
        decreases n - i,
    {
        v.push(Scalar::rand(rng));
        i = i + 1;
    }
    v
}

} // verus!
