//! The value-to-fragment selection rule: an already-scaled utilization value
//! is folded into the corpus range by repeated division by ten.
use vstd::prelude::*;

use crate::corpus::Corpus;

verus! {

/// Repeated integer division by ten until the value drops below `len`.
pub open spec fn fold_spec(scaled: nat, len: nat) -> nat
    recommends
        len > 0,
    decreases scaled,
{
    if scaled < len {
        scaled
    } else if scaled == 0 {
        0
    } else {
        fold_spec(scaled / 10, len)
    }
}

/// The fold always lands strictly inside a non-empty range.
pub proof fn lemma_fold_in_range(scaled: nat, len: nat)
    requires
        len > 0,
    ensures
        fold_spec(scaled, len) < len,
    decreases scaled,
{
    if scaled >= len {
        lemma_fold_in_range(scaled / 10, len);
    }
}

/// Folds a scaled utilization value into `[0, len)` by integer division by ten.
pub fn fold_index(scaled: u64, len: usize) -> (r: usize)
    requires
        len > 0,
    ensures
        r == fold_spec(scaled as nat, len as nat),
        r < len,
{
    let mut s: u64 = scaled;
    while s >= len as u64
        invariant
            len > 0,
            fold_spec(s as nat, len as nat) == fold_spec(scaled as nat, len as nat),
        decreases s,
    {
        s = s / 10;
    }
    s as usize
}

/// ASCII whitespace, as far as trimming a fragment is concerned.
pub open spec fn is_space(b: u8) -> bool {
    b == 32 || b == 9 || b == 10 || b == 13
}

/// `s` with leading and trailing ASCII whitespace removed.
pub open spec fn trimmed(s: Seq<u8>) -> Seq<u8>
    decreases s.len(),
{
    if s.len() == 0 {
        s
    } else if is_space(s[0]) {
        trimmed(s.drop_first())
    } else if is_space(s[s.len() - 1]) {
        trimmed(s.drop_last())
    } else {
        s
    }
}

fn is_space_byte(b: u8) -> (r: bool)
    ensures
        r == is_space(b),
{
    b == 32 || b == 9 || b == 10 || b == 13
}

/// Length of `frag` once leading and trailing whitespace is discounted.
pub fn trimmed_len(frag: &Vec<u8>) -> (n: usize)
    ensures
        n == trimmed(frag@).len(),
{
    let len = frag.len();
    let mut lo: usize = 0;
    proof {
        assert(frag@.subrange(0, len as int) =~= frag@);
    }
    while lo < len && is_space_byte(frag[lo])
        invariant
            lo <= len,
            len == frag@.len(),
            trimmed(frag@) == trimmed(frag@.subrange(lo as int, len as int)),
        decreases len - lo,
    {
        proof {
            let sub = frag@.subrange(lo as int, len as int);
            assert(sub[0] == frag@[lo as int]);
            assert(sub.drop_first() =~= frag@.subrange(lo as int + 1, len as int));
        }
        lo = lo + 1;
    }
    let mut hi: usize = len;
    while hi > lo && is_space_byte(frag[hi - 1])
        invariant
            lo <= hi <= len,
            len == frag@.len(),
            lo < len ==> !is_space(frag@[lo as int]),
            trimmed(frag@) == trimmed(frag@.subrange(lo as int, hi as int)),
        decreases hi,
    {
        proof {
            let sub = frag@.subrange(lo as int, hi as int);
            assert(sub[0] == frag@[lo as int]);
            assert(sub[sub.len() - 1] == frag@[hi as int - 1]);
            assert(sub.drop_last() =~= frag@.subrange(lo as int, hi as int - 1));
        }
        hi = hi - 1;
    }
    proof {
        let sub = frag@.subrange(lo as int, hi as int);
        if lo < hi {
            assert(sub[0] == frag@[lo as int]);
            assert(sub[sub.len() - 1] == frag@[hi as int - 1]);
        }
        assert(trimmed(sub).len() == hi - lo);
    }
    hi - lo
}

/// The fixed fragment returned when the fallback search gives up.
pub open spec fn default_fragment_spec() -> Seq<u8> {
    seq![115u8, 105u8, 108u8, 101u8, 110u8, 99u8, 101u8]
}

/// The fixed fragment (`silence`) returned when the fallback search gives up.
pub fn default_fragment() -> (r: Vec<u8>)
    ensures
        r@ == default_fragment_spec(),
{
    let v: Vec<u8> = vec![115u8, 105u8, 108u8, 101u8, 110u8, 99u8, 101u8];
    proof {
        assert(v@ =~= default_fragment_spec());
    }
    v
}

/// One fallback move: step down by `r`, or up when that would underflow, and
/// clamp at the top of the range so the index never leaves `[0, len)`.
pub open spec fn step_index_spec(idx: nat, r: nat, len: nat) -> nat
    recommends
        len > 0,
        idx < len,
{
    if r <= idx {
        (idx - r) as nat
    } else if idx + r < len {
        idx + r
    } else {
        (len - 1) as nat
    }
}

fn step_index(idx: usize, r: u8, len: usize) -> (j: usize)
    requires
        len > 0,
        idx < len,
    ensures
        j == step_index_spec(idx as nat, r as nat, len as nat),
        j < len,
{
    if r as usize <= idx {
        idx - r as usize
    } else if len - idx > r as usize {
        idx + r as usize
    } else {
        len - 1
    }
}

/// The whole selection rule after folding: take the fragment at `idx`; while
/// it is too short after trimming, move by the next draw; give up on the
/// fixed default fragment when the draws run out.
pub open spec fn select_spec(corpus: Seq<Seq<u8>>, idx: nat, draws: Seq<u8>) -> Seq<u8>
    recommends
        corpus.len() > 0,
        idx < corpus.len(),
    decreases draws.len(),
{
    if trimmed(corpus[idx as int]).len() >= 3 {
        corpus[idx as int]
    } else if draws.len() == 0 {
        default_fragment_spec()
    } else {
        select_spec(
            corpus,
            step_index_spec(idx, draws[0] as nat, corpus.len()),
            draws.drop_first(),
        )
    }
}

/// Whatever the draws were, the selection is either the fixed default
/// fragment or a corpus fragment that passes the shortness check.
pub proof fn lemma_select_sound(corpus: Seq<Seq<u8>>, idx: nat, draws: Seq<u8>)
    requires
        corpus.len() > 0,
        idx < corpus.len(),
    ensures
        select_spec(corpus, idx, draws) == default_fragment_spec() || (exists|i: int|
            0 <= i < corpus.len() && corpus[i] == select_spec(corpus, idx, draws) && trimmed(
                select_spec(corpus, idx, draws),
            ).len() >= 3),
    decreases draws.len(),
{
    if trimmed(corpus[idx as int]).len() >= 3 {
        assert(corpus[idx as int] == select_spec(corpus, idx, draws));
    } else if draws.len() > 0 {
        lemma_select_sound(corpus, step_index_spec(idx, draws[0] as nat, corpus.len()),
            draws.drop_first());
    }
}

pub(crate) fn copy_bytes(src: &Vec<u8>) -> (r: Vec<u8>)
    ensures
        r@ == src@,
{
    let mut r: Vec<u8> = Vec::new();
    let mut i: usize = 0;
    while i < src.len()
        invariant
            i <= src@.len(),
            r@ =~= src@.subrange(0, i as int),
        decreases src@.len() - i,
    {
        r.push(src[i]);
        i = i + 1;
    }
    proof {
        assert(src@.subrange(0, src@.len() as int) =~= src@);
    }
    r
}

/// Deterministic selection under an injected sequence of fallback draws:
/// the result is exactly `select_spec` of the starting index and the draws.
pub fn select_with_draws(corpus: &Corpus, start: usize, draws: &Vec<u8>) -> (frag: Vec<u8>)
    requires
        corpus@.len() > 0,
        start < corpus@.len(),
    ensures
        frag@ == select_spec(corpus@, start as nat, draws@),
{
    let mut idx: usize = start;
    let mut k: usize = 0;
    proof {
        assert(draws@.subrange(0, draws@.len() as int) =~= draws@);
    }
    while k < draws.len()
        invariant
            k <= draws@.len(),
            idx < corpus@.len(),
            select_spec(corpus@, start as nat, draws@) == select_spec(
                corpus@,
                idx as nat,
                draws@.subrange(k as int, draws@.len() as int),
            ),
        decreases draws@.len() - k,
    {
        let frag = corpus.fragment(idx);
        if trimmed_len(frag) >= 3 {
            return copy_bytes(frag);
        }
        let r = draws[k];
        proof {
            let rest = draws@.subrange(k as int, draws@.len() as int);
            assert(rest[0] == draws@[k as int]);
            assert(rest.drop_first() =~= draws@.subrange(k as int + 1, draws@.len() as int));
        }
        idx = step_index(idx, r, corpus.len());
        k = k + 1;
    }
    proof {
        assert(draws@.subrange(draws@.len() as int, draws@.len() as int) =~= Seq::<u8>::empty());
    }
    let frag = corpus.fragment(idx);
    if trimmed_len(frag) >= 3 {
        copy_bytes(frag)
    } else {
        default_fragment()
    }
}

/// Relies on `rand::Rng::gen_range` on `rand::thread_rng` for one uniform
/// fallback draw; nothing is assumed beyond the range of the result.
#[verifier::external_body]
fn random_step() -> (r: u8)
    ensures
        1 <= r <= 10,
{
    rand::Rng::gen_range(&mut rand::thread_rng(), 1..=10)
}

/// How many fallback draws are attempted before giving up on the default
/// fragment.
pub open spec fn max_attempts() -> nat {
    10
}

/// Selects the fragment for one scaled utilization value: fold the value
/// into range, then run the fallback rule. Randomness enters only when it is
/// needed: a draw is taken just when the fragment at hand is too short.
pub fn select_fragment(corpus: &Corpus, scaled: u32) -> (frag: Vec<u8>)
    ensures
        chosen_fragment(corpus@, scaled as nat, frag@),
{
    let len = corpus.len();
    let mut idx = fold_index(scaled as u64, len);
    let ghost idx0 = idx as nat;
    let ghost mut draws: Seq<u8> = Seq::empty();
    proof {
        assert forall|rest: Seq<u8>|
            select_spec(corpus@, idx0, draws + rest) == #[trigger] select_spec(
                corpus@,
                idx as nat,
                rest,
            ) by {
            assert(draws + rest =~= rest);
        }
    }
    let mut attempts: usize = 0;
    while attempts < 10
        invariant
            corpus@.len() > 0,
            len == corpus@.len(),
            idx < corpus@.len(),
            attempts <= 10,
            draws.len() == attempts,
            idx0 == fold_spec(scaled as nat, corpus@.len()),
            forall|j: int| 0 <= j < draws.len() ==> 1 <= #[trigger] draws[j] <= 10,
            forall|rest: Seq<u8>|
                select_spec(corpus@, idx0, draws + rest) == #[trigger] select_spec(
                    corpus@,
                    idx as nat,
                    rest,
                ),
        decreases 10 - attempts,
    {
        let frag = corpus.fragment(idx);
        if trimmed_len(frag) >= 3 {
            proof {
                let pad = Seq::new((10 - attempts) as nat, |j: int| 1u8);
                let full = draws + pad;
                assert(select_spec(corpus@, idx as nat, pad) == corpus@[idx as int]);
                assert(frag@ == select_spec(corpus@, fold_spec(scaled as nat, corpus@.len()),
                    full));
                assert(full.len() == max_attempts());
                assert forall|j: int| 0 <= j < full.len() implies 1 <= #[trigger] full[j]
                    <= 10 by {
                    if j >= draws.len() {
                        assert(full[j] == pad[j - draws.len()]);
                    }
                }
                assert(chosen_fragment(corpus@, scaled as nat, frag@));
            }
            return copy_bytes(frag);
        }
        let r = random_step();
        let ghost old_idx = idx as nat;
        let ghost old_draws = draws;
        idx = step_index(idx, r, len);
        attempts = attempts + 1;
        proof {
            draws = old_draws.push(r);
            assert forall|rest: Seq<u8>|
                select_spec(corpus@, idx0, draws + rest) == #[trigger] select_spec(
                    corpus@,
                    idx as nat,
                    rest,
                ) by {
                let mid = seq![r] + rest;
                assert(draws + rest =~= old_draws + mid);
                assert(select_spec(corpus@, idx0, old_draws + mid) == select_spec(
                    corpus@,
                    old_idx,
                    mid,
                ));
                assert(mid[0] == r);
                assert(mid.drop_first() =~= rest);
                assert(select_spec(corpus@, old_idx, mid) == select_spec(
                    corpus@,
                    step_index_spec(old_idx, r as nat, corpus@.len()),
                    rest,
                ));
            }
        }
    }
    proof {
        assert(draws + Seq::<u8>::empty() =~= draws);
        assert(select_spec(corpus@, idx0, draws) == select_spec(
            corpus@,
            idx as nat,
            Seq::<u8>::empty(),
        ));
    }
    let frag = corpus.fragment(idx);
    if trimmed_len(frag) >= 3 {
        proof {
            assert(frag@ == select_spec(corpus@, fold_spec(scaled as nat, corpus@.len()), draws));
            assert(chosen_fragment(corpus@, scaled as nat, frag@));
        }
        copy_bytes(frag)
    } else {
        let d = default_fragment();
        proof {
            assert(d@ == select_spec(corpus@, fold_spec(scaled as nat, corpus@.len()), draws));
            assert(chosen_fragment(corpus@, scaled as nat, d@));
        }
        d
    }
}

/// What the sampler may pair with a scaled utilization value: the selection
/// under some bounded sequence of in-range fallback draws, starting from the
/// folded index.
pub open spec fn chosen_fragment(corpus: Seq<Seq<u8>>, scaled: nat, frag: Seq<u8>) -> bool {
    exists|draws: Seq<u8>|
        draws.len() == max_attempts() && (forall|j: int|
            0 <= j < draws.len() ==> 1 <= #[trigger] draws[j] <= 10) && frag == #[trigger] select_spec(
            corpus,
            fold_spec(scaled, corpus.len()),
            draws,
        )
}

/// Whatever the random draws did, a fragment paired with a scaled value is
/// either the fixed default fragment or a corpus fragment that passes the
/// shortness check; the fallback walk never leaves the corpus bounds and
/// never loops without end.
pub proof fn lemma_chosen_sound(corpus: Seq<Seq<u8>>, scaled: nat, frag: Seq<u8>)
    requires
        corpus.len() > 0,
        chosen_fragment(corpus, scaled, frag),
    ensures
        frag == default_fragment_spec() || (exists|i: int|
            0 <= i < corpus.len() && corpus[i] == frag && trimmed(frag).len() >= 3),
{
    let draws = choose|draws: Seq<u8>|
        draws.len() == max_attempts() && (forall|j: int|
            0 <= j < draws.len() ==> 1 <= #[trigger] draws[j] <= 10) && frag
            == #[trigger] select_spec(corpus, fold_spec(scaled, corpus.len()), draws);
    lemma_fold_in_range(scaled, corpus.len());
    lemma_select_sound(corpus, fold_spec(scaled, corpus.len()), draws);
}

/// When every single draw lands on an acceptable neighbour of the folded
/// index, the fallback cannot give up: the selection is a corpus fragment
/// that passes the shortness check, never the fixed default.
pub proof fn lemma_one_draw_suffices(corpus: Seq<Seq<u8>>, scaled: nat, frag: Seq<u8>)
    requires
        corpus.len() > 0,
        chosen_fragment(corpus, scaled, frag),
        forall|d: u8|
            1 <= d <= 10 ==> trimmed(
                corpus[step_index_spec(
                    fold_spec(scaled, corpus.len()),
                    d as nat,
                    corpus.len(),
                ) as int],
            ).len() >= 3,
    ensures
        exists|i: int| 0 <= i < corpus.len() && corpus[i] == frag && trimmed(frag).len() >= 3,
{
    let idx = fold_spec(scaled, corpus.len());
    lemma_fold_in_range(scaled, corpus.len());
    let draws = choose|draws: Seq<u8>|
        draws.len() == max_attempts() && (forall|j: int|
            0 <= j < draws.len() ==> 1 <= #[trigger] draws[j] <= 10) && frag
            == #[trigger] select_spec(corpus, fold_spec(scaled, corpus.len()), draws);
    if trimmed(corpus[idx as int]).len() >= 3 {
        assert(frag == corpus[idx as int]);
    } else {
        let d = draws[0];
        assert(1 <= d <= 10);
        let idx2 = step_index_spec(idx, d as nat, corpus.len());
        assert(trimmed(corpus[idx2 as int]).len() >= 3);
        assert(frag == select_spec(corpus, idx2, draws.drop_first()));
        assert(frag == corpus[idx2 as int]);
        assert(0 <= idx2 < corpus.len());
    }
}

/// When the fragment at the folded index already passes the shortness check,
/// the selection is deterministic: it is exactly that fragment.
pub proof fn lemma_deterministic_when_long(corpus: Seq<Seq<u8>>, scaled: nat, frag: Seq<u8>)
    requires
        corpus.len() > 0,
        chosen_fragment(corpus, scaled, frag),
        trimmed(corpus[fold_spec(scaled, corpus.len()) as int]).len() >= 3,
    ensures
        frag == corpus[fold_spec(scaled, corpus.len()) as int],
{
    assert forall|draws: Seq<u8>|
        #[trigger] select_spec(corpus, fold_spec(scaled, corpus.len()), draws) == corpus[fold_spec(
            scaled,
            corpus.len(),
        ) as int] by {}
}

} // verus!
