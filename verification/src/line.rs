//! One lane of the board as a sequence of values, read from the wall that the
//! tiles slide towards, and what a slide does to it.

use vstd::prelude::*;

verus! {

/// The lane after a slide: from the wall outwards, two equal neighbours
/// become one tile of their sum, and a tile made by a merge does not merge
/// again.
pub open spec fn merged(line: Seq<int>) -> Seq<int>
    decreases line.len(),
{
    if line.len() == 0 {
        Seq::empty()
    } else if line.len() >= 2 && line[0] == line[1] {
        seq![line[0] + line[1]] + merged(line.skip(2))
    } else {
        seq![line[0]] + merged(line.skip(1))
    }
}

/// The score that sliding the lane earns: the value of every tile made by a
/// merge.
pub open spec fn gain(line: Seq<int>) -> int
    decreases line.len(),
{
    if line.len() == 0 {
        0
    } else if line.len() >= 2 && line[0] == line[1] {
        line[0] + line[1] + gain(line.skip(2))
    } else {
        gain(line.skip(1))
    }
}

/// The number of merges that sliding the lane performs.
pub open spec fn merge_count(line: Seq<int>) -> int
    decreases line.len(),
{
    if line.len() == 0 {
        0
    } else if line.len() >= 2 && line[0] == line[1] {
        1 + merge_count(line.skip(2))
    } else {
        merge_count(line.skip(1))
    }
}

/// The sum of the lane's values.
pub open spec fn sum(line: Seq<int>) -> int
    decreases line.len(),
{
    if line.len() == 0 {
        0
    } else {
        line[0] + sum(line.skip(1))
    }
}

/// No value of the lane is negative.
pub open spec fn non_negative(line: Seq<int>) -> bool {
    forall|i: int| 0 <= i < line.len() ==> 0 <= #[trigger] line[i]
}

/// No two neighbours of the lane are equal, so a slide merges nothing.
pub open spec fn no_equal_neighbours(line: Seq<int>) -> bool {
    forall|i: int| 0 <= i && i + 1 < line.len() ==> #[trigger] line[i] != line[i + 1]
}

/// The sum of a lane of two or more values, with the first two taken out.
pub proof fn lemma_sum_two(line: Seq<int>)
    requires
        line.len() >= 2,
    ensures
        sum(line) == line[0] + line[1] + sum(line.skip(2)),
{
    let tail = line.skip(1);
    assert(tail[0] == line[1]);
    assert(tail.skip(1) =~= line.skip(2));
    assert(sum(tail) == tail[0] + sum(tail.skip(1)));
}

/// A slide shortens the lane by one tile for each merge, and empties no lane
/// that held a tile.
pub proof fn lemma_merged_len(line: Seq<int>)
    ensures
        merged(line).len() + merge_count(line) == line.len(),
        0 <= merge_count(line),
        line.len() > 0 ==> merged(line).len() > 0,
    decreases line.len(),
{
    if line.len() == 0 {
    } else if line.len() >= 2 && line[0] == line[1] {
        lemma_merged_len(line.skip(2));
    } else {
        lemma_merged_len(line.skip(1));
    }
}

/// A slide keeps the sum of the lane's values.
pub proof fn lemma_merged_sum(line: Seq<int>)
    ensures
        sum(merged(line)) == sum(line),
    decreases line.len(),
{
    if line.len() == 0 {
    } else if line.len() >= 2 && line[0] == line[1] {
        let rest = line.skip(2);
        lemma_merged_sum(rest);
        lemma_sum_two(line);
        assert(merged(line).skip(1) =~= merged(rest));
        assert(merged(line)[0] == line[0] + line[1]);
    } else {
        let rest = line.skip(1);
        lemma_merged_sum(rest);
        assert(merged(line).skip(1) =~= merged(rest));
        assert(merged(line)[0] == line[0]);
    }
}

/// With no negative value in the lane, the score earned lies between zero
/// and the sum of the lane.
pub proof fn lemma_gain_bounds(line: Seq<int>)
    requires
        non_negative(line),
    ensures
        0 <= gain(line) <= sum(line),
    decreases line.len(),
{
    if line.len() == 0 {
    } else if line.len() >= 2 && line[0] == line[1] {
        let rest = line.skip(2);
        assert(non_negative(rest)) by {
            assert forall|i: int| 0 <= i < rest.len() implies 0 <= #[trigger] rest[i] by {
                assert(rest[i] == line[i + 2]);
            }
        }
        lemma_gain_bounds(rest);
        lemma_sum_two(line);
    } else {
        let rest = line.skip(1);
        assert(non_negative(rest)) by {
            assert forall|i: int| 0 <= i < rest.len() implies 0 <= #[trigger] rest[i] by {
                assert(rest[i] == line[i + 1]);
            }
        }
        lemma_gain_bounds(rest);
    }
}

/// Where no value of the lane and no merge of its slide goes beyond a limit,
/// no value of the lane after the slide does.
pub proof fn lemma_merged_bounds(line: Seq<int>, limit: int)
    requires
        forall|i: int| 0 <= i < line.len() ==> 0 <= #[trigger] line[i] <= limit,
        gain(line) <= limit,
    ensures
        forall|j: int| 0 <= j < merged(line).len() ==> 0 <= #[trigger] merged(line)[j] <= limit,
    decreases line.len(),
{
    if line.len() > 0 {
        let merge = line.len() >= 2 && line[0] == line[1];
        let rest = if merge { line.skip(2) } else { line.skip(1) };
        assert(non_negative(line));
        assert(non_negative(rest));
        lemma_gain_bounds(rest);
        lemma_merged_bounds(rest, limit);
        assert(merged(line).skip(1) =~= merged(rest));
        assert forall|j: int| 0 <= j < merged(line).len() implies 0 <= #[trigger] merged(line)[j]
            <= limit by {
            if j > 0 {
                assert(merged(line)[j] == merged(rest)[j - 1]);
            }
        }
    }
}

/// A lane without equal neighbours comes out of a slide as it went in, and
/// earns nothing.
pub proof fn lemma_merged_settled(line: Seq<int>)
    requires
        no_equal_neighbours(line),
    ensures
        merged(line) == line,
        gain(line) == 0,
        merge_count(line) == 0,
    decreases line.len(),
{
    if line.len() > 0 {
        let rest = line.skip(1);
        assert(no_equal_neighbours(rest)) by {
            assert forall|i: int| 0 <= i && i + 1 < rest.len() implies #[trigger] rest[i] != rest[i + 1] by {
                assert(rest[i] == line[i + 1]);
                assert(rest[i + 1] == line[i + 1 + 1]);
            }
        }
        lemma_merged_settled(rest);
        if line.len() >= 2 {
            assert(line[0] != line[0int + 1]);
        }
        assert(merged(line) =~= line);
    }
}

} // verus!
