//! Heights that a block locator samples: every height near the tip, then
//! heights that thin out exponentially, and always the genesis block.

use vstd::prelude::*;

verus! {

/// How many samples are taken one block apart before the distance between
/// samples starts to double.
pub const DENSE_SAMPLES: usize = 10;

/// The distance to the next sample once `emitted` samples are out, the last
/// of them reached with distance `step`: the distance doubles after every
/// sample from the tenth on.
pub open spec fn next_step(emitted: nat, step: nat) -> nat {
    if emitted >= DENSE_SAMPLES {
        2 * step
    } else {
        step
    }
}

/// The heights sampled from `height` down, when `emitted` samples are out
/// already and the distance between samples is `step`: `height` itself, then
/// the heights below it at growing distances, and height zero at the end.
pub open spec fn locator_heights_from(height: nat, emitted: nat, step: nat) -> Seq<nat>
    decreases height,
{
    let step = next_step(emitted + 1, step);
    if height == 0 {
        seq![0nat]
    } else if height < step || step == 0 {
        seq![height, 0nat]
    } else {
        seq![height] + locator_heights_from((height - step) as nat, emitted + 1, step)
    }
}

/// The heights that a locator samples on a chain whose tip is at `top`.
pub open spec fn locator_heights(top: nat) -> Seq<nat> {
    locator_heights_from(top, 0, 1)
}

/// The distance between sample `k` and the next one: one block for the first
/// nine distances, then two, four, eight and so on.
pub open spec fn sample_gap(k: nat) -> nat
    decreases k,
{
    if k < DENSE_SAMPLES - 1 {
        1
    } else {
        2 * sample_gap((k - 1) as nat)
    }
}

/// The samples from `height` down start at `height`, end at zero, never
/// rise, and stay at or below `height`.
pub proof fn lemma_locator_heights_from(height: nat, emitted: nat, step: nat)
    ensures
        locator_heights_from(height, emitted, step).len() >= 1,
        locator_heights_from(height, emitted, step).first() == height,
        locator_heights_from(height, emitted, step).last() == 0,
        forall|k: int|
            0 <= k < locator_heights_from(height, emitted, step).len()
                ==> #[trigger] locator_heights_from(height, emitted, step)[k] <= height,
    decreases height,
{
    let next = next_step(emitted + 1, step);
    if height != 0 && !(height < next || next == 0) {
        let lower = (height - next) as nat;
        lemma_locator_heights_from(lower, emitted + 1, next);
        let rest = locator_heights_from(lower, emitted + 1, next);
        let all = locator_heights_from(height, emitted, step);
        assert(all =~= seq![height] + rest);
        assert(all.last() == rest.last());
        assert forall|k: int| 0 <= k < all.len() implies #[trigger] all[k] <= height by {
            if k > 0 {
                assert(all[k] == rest[k - 1]);
            }
        }
    }
}

/// The distances between the samples from `height` down, when the first of
/// them is sample number `emitted` of the locator (counted from zero) and
/// `step` is the distance that led to it: every distance but the last is
/// that of its rank, and the last one, which leads to height zero, is no
/// longer than that of its rank.
pub proof fn lemma_locator_gaps_from(height: nat, emitted: nat, step: nat)
    requires
        step >= 1,
        emitted == 0 ==> step == 1,
        emitted >= 1 ==> step == sample_gap((emitted - 1) as nat),
    ensures
        forall|k: int|
            0 <= k && k + 2 < locator_heights_from(height, emitted, step).len()
                ==> #[trigger] locator_heights_from(height, emitted, step)[k]
                - locator_heights_from(height, emitted, step)[k + 1] == sample_gap(
                (emitted + k) as nat,
            ),
        forall|k: int|
            0 <= k && k + 2 == locator_heights_from(height, emitted, step).len()
                ==> 0 < #[trigger] locator_heights_from(height, emitted, step)[k]
                - locator_heights_from(height, emitted, step)[k + 1] <= sample_gap(
                (emitted + k) as nat,
            ),
    decreases height,
{
    let next = next_step(emitted + 1, step);
    assert(next == sample_gap(emitted)) by {
        if emitted >= 1 {
            assert(sample_gap(emitted) == if emitted < DENSE_SAMPLES - 1 {
                1
            } else {
                2 * sample_gap((emitted - 1) as nat)
            });
            lemma_sample_gap_dense((emitted - 1) as nat);
        }
    }
    let all = locator_heights_from(height, emitted, step);
    if height != 0 && !(height < next || next == 0) {
        let lower = (height - next) as nat;
        let rest = locator_heights_from(lower, emitted + 1, next);
        lemma_locator_gaps_from(lower, emitted + 1, next);
        lemma_locator_heights_from(lower, emitted + 1, next);
        assert(all =~= seq![height] + rest);
        assert forall|k: int| 0 <= k && k + 2 < all.len() implies #[trigger] all[k] - all[k + 1]
            == sample_gap((emitted + k) as nat) by {
            if k > 0 {
                assert(all[k] == rest[k - 1]);
                assert(all[k + 1] == rest[k]);
                assert(rest[k - 1] - rest[k] == sample_gap((emitted + 1 + (k - 1)) as nat));
            } else {
                assert(all[1] == rest[0]);
            }
        }
        assert forall|k: int| 0 <= k && k + 2 == all.len() implies 0 < #[trigger] all[k] - all[k
            + 1] <= sample_gap((emitted + k) as nat) by {
            if k > 0 {
                assert(all[k] == rest[k - 1]);
                assert(all[k + 1] == rest[k]);
                assert(0 < rest[k - 1] - rest[k] <= sample_gap((emitted + 1 + (k - 1)) as nat));
            } else {
                assert(all[1] == rest[0]);
            }
        }
    }
}

/// The first nine distances are one block long.
pub proof fn lemma_sample_gap_dense(k: nat)
    ensures
        k < DENSE_SAMPLES - 1 ==> sample_gap(k) == 1,
        sample_gap(k) >= 1,
    decreases k,
{
    if k >= DENSE_SAMPLES - 1 {
        lemma_sample_gap_dense((k - 1) as nat);
    }
}

} // verus!
