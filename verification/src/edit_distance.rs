use vstd::prelude::*;
use vstd::string::StrSliceExecFns;

verus! {

/// Default length-penalty weight, in tenths (9 tenths = 0.9).
pub const LEN_WEIGHT_TENTHS: u32 = 9;

/// Number of changes counted by the single left-to-right scan: matching
/// characters cost nothing, an adjacent transposition (with more than two
/// characters remaining on both sides) costs one, any other mismatch costs
/// one, and once one string is exhausted the remainder of the other costs
/// one per character plus one.
pub open spec fn scan_changes(s1: Seq<char>, s2: Seq<char>) -> nat
    decreases s1.len() + s2.len(),
{
    if s1.len() == 0 && s2.len() == 0 {
        0
    } else if s2.len() == 0 {
        s1.len() + 1
    } else if s1.len() == 0 {
        s2.len() + 1
    } else if s1[0] == s2[0] {
        scan_changes(s1.drop_first(), s2.drop_first())
    } else if s1.len() > 2 && s2.len() > 2 && s1[0] == s2[1] && s2[0] == s1[1] {
        1 + scan_changes(s1.skip(2), s2.skip(2))
    } else {
        1 + scan_changes(s1.drop_first(), s2.drop_first())
    }
}

pub open spec fn abs_diff(a: int, b: int) -> int {
    if a >= b {
        a - b
    } else {
        b - a
    }
}

/// The similarity score, scaled by ten so that it stays an exact integer:
/// ten times the change count, minus `weight_tenths` times the length
/// difference. Empty inputs take the early paths, which ignore the weight.
pub open spec fn score10(s1: Seq<char>, s2: Seq<char>, weight_tenths: int) -> int {
    if s1.len() == 0 && s2.len() == 0 {
        0
    } else if s1.len() == 0 {
        10 * s2.len() as int
    } else if s2.len() == 0 {
        10 * s1.len() as int
    } else {
        10 * scan_changes(s1, s2) - weight_tenths * abs_diff(
            s1.len() as int,
            s2.len() as int,
        )
    }
}

proof fn lemma_skip_succ(s: Seq<char>, k: int)
    requires
        0 <= k < s.len(),
    ensures
        s.skip(k).drop_first() == s.skip(k + 1),
{
    assert(s.skip(k).drop_first() =~= s.skip(k + 1));
}

proof fn lemma_skip_two(s: Seq<char>, k: int)
    requires
        0 <= k,
        k + 2 <= s.len(),
    ensures
        s.skip(k).skip(2) == s.skip(k + 2),
{
    assert(s.skip(k).skip(2) =~= s.skip(k + 2));
}

proof fn lemma_scan_changes_bound(s1: Seq<char>, s2: Seq<char>)
    ensures
        scan_changes(s1, s2) <= s1.len() + s2.len() + 1,
    decreases s1.len() + s2.len(),
{
    if s1.len() == 0 && s2.len() == 0 {
    } else if s2.len() == 0 {
    } else if s1.len() == 0 {
    } else if s1[0] == s2[0] {
        lemma_scan_changes_bound(s1.drop_first(), s2.drop_first());
    } else if s1.len() > 2 && s2.len() > 2 && s1[0] == s2[1] && s2[0] == s1[1] {
        lemma_scan_changes_bound(s1.skip(2), s2.skip(2));
    } else {
        lemma_scan_changes_bound(s1.drop_first(), s2.drop_first());
    }
}

fn change_count(s1: &str, s2: &str) -> (c: u128)
    ensures
        c == scan_changes(s1@, s2@),
{
    let l1 = s1.unicode_len();
    let l2 = s2.unicode_len();
    let mut k: usize = 0;
    let mut changes: u128 = 0;
    proof {
        assert(s1@.skip(0) =~= s1@);
        assert(s2@.skip(0) =~= s2@);
    }
    while k < l1 || k < l2
        invariant_except_break
            l1 as nat == s1@.len(),
            l2 as nat == s2@.len(),
            k <= l1,
            k <= l2,
            changes <= k,
            changes + scan_changes(s1@.skip(k as int), s2@.skip(k as int)) == scan_changes(
                s1@,
                s2@,
            ),
        ensures
            changes == scan_changes(s1@, s2@),
        decreases (l1 as int - k as int) + (l2 as int - k as int),
    {
        if k < l1 && k == l2 {
            changes = changes + (l1 - k) as u128 + 1;
            break ;
        } else if k == l1 && k < l2 {
            changes = changes + (l2 - k) as u128 + 1;
            break ;
        }
        let c1 = s1.get_char(k);
        let c2 = s2.get_char(k);
        if c1 == c2 {
            proof {
                lemma_skip_succ(s1@, k as int);
                lemma_skip_succ(s2@, k as int);
            }
            k = k + 1;
        } else if l1 - k > 2 && l2 - k > 2 {
            let c1_next = s1.get_char(k + 1);
            let c2_next = s2.get_char(k + 1);
            if c1 == c2_next && c2 == c1_next {
                proof {
                    lemma_skip_two(s1@, k as int);
                    lemma_skip_two(s2@, k as int);
                }
                changes = changes + 1;
                k = k + 2;
            } else {
                proof {
                    lemma_skip_succ(s1@, k as int);
                    lemma_skip_succ(s2@, k as int);
                }
                changes = changes + 1;
                k = k + 1;
            }
        } else {
            proof {
                lemma_skip_succ(s1@, k as int);
                lemma_skip_succ(s2@, k as int);
            }
            changes = changes + 1;
            k = k + 1;
        }
    }
    changes
}

/// Length-normalized approximate edit distance between two strings, scaled
/// by ten: ten times the scanned change count minus `len_weight_tenths`
/// (default nine, that is a weight of 0.9) times the length difference.
/// An empty string scores ten times the other's length, weight ignored.
pub fn edit_distance(s1: &str, s2: &str, len_weight_tenths: Option<u32>) -> (score: i128)
    ensures
        score == score10(
            s1@,
            s2@,
            match len_weight_tenths {
                Some(w) => w as int,
                None => LEN_WEIGHT_TENTHS as int,
            },
        ),
{
    let l1 = s1.unicode_len();
    let l2 = s2.unicode_len();
    if l1 == 0 && l2 == 0 {
        return 0;
    }
    if l1 == 0 {
        return 10 * (l2 as i128);
    }
    if l2 == 0 {
        return 10 * (l1 as i128);
    }
    let weight: u32 = match len_weight_tenths {
        Some(w) => w,
        None => LEN_WEIGHT_TENTHS,
    };
    let changes = change_count(s1, s2);
    proof {
        lemma_scan_changes_bound(s1@, s2@);
    }
    let len_diff: usize = if l1 >= l2 {
        l1 - l2
    } else {
        l2 - l1
    };
    proof {
        vstd::arithmetic::mul::lemma_mul_upper_bound(
            weight as int,
            u32::MAX as int,
            len_diff as int,
            usize::MAX as int,
        );
        vstd::arithmetic::mul::lemma_mul_nonnegative(weight as int, len_diff as int);
    }
    10 * (changes as i128) - (weight as i128) * (len_diff as i128)
}

proof fn lemma_scan_changes_self(s: Seq<char>)
    ensures
        scan_changes(s, s) == 0,
    decreases s.len(),
{
    if s.len() > 0 {
        lemma_scan_changes_self(s.drop_first());
    }
}

/// A string compared with itself scores zero, whatever the weight.
pub proof fn lemma_score_self_zero(s: Seq<char>, weight_tenths: int)
    ensures
        score10(s, s, weight_tenths) == 0,
{
    lemma_scan_changes_self(s);
    vstd::arithmetic::mul::lemma_mul_basics(weight_tenths);
}

/// Against the empty string, a string scores exactly its length (scaled by
/// ten); the weight plays no part on these early paths.
pub proof fn lemma_score_empty(s: Seq<char>, weight_tenths: int)
    ensures
        score10(s, Seq::<char>::empty(), weight_tenths) == 10 * s.len(),
        score10(Seq::<char>::empty(), s, weight_tenths) == 10 * s.len(),
{
}

proof fn lemma_scan_changes_pos(s1: Seq<char>, s2: Seq<char>)
    requires
        s1.len() == s2.len(),
        s1 != s2,
    ensures
        scan_changes(s1, s2) >= 1,
    decreases s1.len(),
{
    if s1.len() == 0 {
        assert(s1 =~= s2);
    } else if s1[0] == s2[0] {
        if s1.drop_first() == s2.drop_first() {
            assert forall|i: int| 0 <= i < s1.len() implies s1[i] == s2[i] by {
                if i > 0 {
                    assert(s1.drop_first()[i - 1] == s1[i]);
                    assert(s2.drop_first()[i - 1] == s2[i]);
                }
            }
            assert(s1 =~= s2);
        } else {
            lemma_scan_changes_pos(s1.drop_first(), s2.drop_first());
        }
    }
}

proof fn lemma_scan_changes_len_diff(s1: Seq<char>, s2: Seq<char>)
    requires
        s1.len() != s2.len(),
    ensures
        scan_changes(s1, s2) >= abs_diff(s1.len() as int, s2.len() as int) + 1,
    decreases s1.len() + s2.len(),
{
    if s1.len() == 0 || s2.len() == 0 {
    } else if s1[0] == s2[0] {
        lemma_scan_changes_len_diff(s1.drop_first(), s2.drop_first());
    } else if s1.len() > 2 && s2.len() > 2 && s1[0] == s2[1] && s2[0] == s1[1] {
        lemma_scan_changes_len_diff(s1.skip(2), s2.skip(2));
    } else {
        lemma_scan_changes_len_diff(s1.drop_first(), s2.drop_first());
    }
}

/// Under the default weight, distinct strings always score strictly more
/// than zero, and equal strings exactly zero: the score separates them.
pub proof fn lemma_score_positive(s1: Seq<char>, s2: Seq<char>)
    requires
        s1 != s2,
    ensures
        score10(s1, s2, LEN_WEIGHT_TENTHS as int) > 0,
{
    if s1.len() == 0 && s2.len() == 0 {
        assert(s1 =~= s2);
    } else if s1.len() == 0 || s2.len() == 0 {
    } else if s1.len() == s2.len() {
        lemma_scan_changes_pos(s1, s2);
    } else {
        lemma_scan_changes_len_diff(s1, s2);
    }
}

} // verus!
