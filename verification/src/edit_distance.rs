use vstd::prelude::*;

verus! {

pub open spec fn min_nat(x: nat, y: nat) -> nat {
    if x < y {
        x
    } else {
        y
    }
}

/// Fewest single-character edits (insertion, deletion, substitution, and —
/// when `transpositions` is set — swapping two adjacent characters) that turn
/// `a` into `b`.
pub open spec fn edit_dist(a: Seq<char>, b: Seq<char>, transpositions: bool) -> nat
    decreases a.len() + b.len(),
{
    if a.len() == 0 {
        b.len()
    } else if b.len() == 0 {
        a.len()
    } else {
        let del = edit_dist(a.drop_first(), b, transpositions) + 1;
        let ins = edit_dist(a, b.drop_first(), transpositions) + 1;
        let sub = edit_dist(a.drop_first(), b.drop_first(), transpositions) + (
        if a[0] == b[0] {
            0nat
        } else {
            1nat
        });
        let base = min_nat(del, min_nat(ins, sub));
        if transpositions && a.len() >= 2 && b.len() >= 2 && a[0] == b[1] && a[1] == b[0] {
            min_nat(edit_dist(a.skip(2), b.skip(2), transpositions) + 1, base)
        } else {
            base
        }
    }
}

/// `q` is within `budget` edits of some prefix of `key`.
pub open spec fn prefix_edit_within(
    q: Seq<char>,
    key: Seq<char>,
    budget: nat,
    transpositions: bool,
) -> bool {
    exists|i: int| 0 <= i <= key.len() && edit_dist(q, key.subrange(0, i), transpositions) <= budget
}

/// Decide whether the suffix of `a` from `ai` and the slice of `b` from `bi`
/// to `bend` are within `budget` edits of each other.
pub(crate) fn within_edits(
    a: &Vec<char>,
    ai: usize,
    b: &Vec<char>,
    bi: usize,
    bend: usize,
    budget: u8,
    transpositions: bool,
) -> (r: bool)
    requires
        ai <= a@.len(),
        bi <= bend <= b@.len(),
    ensures
        r <==> edit_dist(
            a@.skip(ai as int),
            b@.subrange(bi as int, bend as int),
            transpositions,
        ) <= budget as nat,
    decreases a@.len() - ai + bend - bi,
{
    let ghost sa = a@.skip(ai as int);
    let ghost sb = b@.subrange(bi as int, bend as int);
    let ra = a.len() - ai;
    let rb = bend - bi;
    if ra == 0 {
        return rb <= budget as usize;
    }
    if rb == 0 {
        return ra <= budget as usize;
    }
    proof {
        assert(sa[0] == a@[ai as int]);
        assert(sb[0] == b@[bi as int]);
        assert(sa.drop_first() =~= a@.skip(ai as int + 1));
        assert(sb.drop_first() =~= b@.subrange(bi as int + 1, bend as int));
        if ra >= 2 {
            assert(sa[1] == a@[ai as int + 1]);
            assert(sa.skip(2) =~= a@.skip(ai as int + 2));
        }
        if rb >= 2 {
            assert(sb[1] == b@[bi as int + 1]);
            assert(sb.skip(2) =~= b@.subrange(bi as int + 2, bend as int));
        }
    }
    let heads_eq = a[ai] == b[bi];
    if heads_eq && within_edits(a, ai + 1, b, bi + 1, bend, budget, transpositions) {
        return true;
    }
    if budget > 0 {
        let nb = budget - 1;
        if within_edits(a, ai + 1, b, bi, bend, nb, transpositions) {
            return true;
        }
        if within_edits(a, ai, b, bi + 1, bend, nb, transpositions) {
            return true;
        }
        if !heads_eq && within_edits(a, ai + 1, b, bi + 1, bend, nb, transpositions) {
            return true;
        }
        if transpositions && ra >= 2 && rb >= 2 && a[ai] == b[bi + 1] && a[ai + 1] == b[bi] {
            if within_edits(a, ai + 2, b, bi + 2, bend, nb, transpositions) {
                return true;
            }
        }
    }
    false
}

/// Decide whether `q` is within `budget` edits of `key` as a whole.
pub(crate) fn key_within_edits(q: &Vec<char>, key: &Vec<char>, budget: u8, transpositions: bool) -> (r:
    bool)
    ensures
        r <==> edit_dist(q@, key@, transpositions) <= budget as nat,
{
    let r = within_edits(q, 0, key, 0, key.len(), budget, transpositions);
    proof {
        assert(q@.skip(0) =~= q@);
        assert(key@.subrange(0, key@.len() as int) =~= key@);
    }
    r
}

/// Decide whether `q` is within `budget` edits of some prefix of `key`.
pub(crate) fn prefix_within_edits(
    q: &Vec<char>,
    key: &Vec<char>,
    budget: u8,
    transpositions: bool,
) -> (r: bool)
    ensures
        r <==> prefix_edit_within(q@, key@, budget as nat, transpositions),
{
    proof {
        assert(q@.skip(0) =~= q@);
    }
    let mut i: usize = 0;
    loop
        invariant
            i <= key@.len(),
            forall|j: int|
                0 <= j < i ==> !(edit_dist(q@, #[trigger] key@.subrange(0, j), transpositions)
                    <= budget as nat),
        decreases key@.len() - i,
    {
        proof {
            assert(q@.skip(0) =~= q@);
        }
        if within_edits(q, 0, key, 0, i, budget, transpositions) {
            return true;
        }
        if i == key.len() {
            return false;
        }
        i = i + 1;
    }
}

} // verus!
