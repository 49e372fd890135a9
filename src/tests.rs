//! Statistical checks of a 20 000-bit sample written as a string of `0`
//! and `1`: the monobit, long-run and poker tests.

use vstd::prelude::*;
use vstd::string::{StrSliceExecFns, StringSliceAdditionalSpecFns};

verus! {

/// The verdict of a statistical test.
#[derive(Clone, Copy, Debug, PartialEq, Eq, Structural)]
pub enum Result {
    Passed,
    Failed,
}

/// Occurrences of byte `b` in `s`.
pub open spec fn count_byte(s: Seq<u8>, b: u8) -> nat
    decreases s.len(),
{
    if s.len() == 0 {
        0
    } else {
        count_byte(s.drop_last(), b) + if s.last() == b { 1nat } else { 0nat }
    }
}

/// Some 26 consecutive bytes of `s` hold no byte `b`: a run longer than 25
/// between two occurrences of `b`.
pub open spec fn has_long_run_without(s: Seq<u8>, b: u8) -> bool {
    exists|i: int| 0 <= i && i + 26 <= s.len() && #[trigger] run_without(s, b, i)
}

/// The 26 bytes of `s` from `i` on hold no byte `b`.
pub open spec fn run_without(s: Seq<u8>, b: u8, i: int) -> bool {
    forall|k: int| i <= k < i + 26 ==> #[trigger] s[k] != b
}

/// The value of the `k`-th complete group of four characters of `s`, the
/// first character giving the lowest bit, a `1` setting its bit.
pub open spec fn group_value(s: Seq<char>, k: int) -> nat {
    (if s[4 * k] == '1' { 1nat } else { 0nat }) + (if s[4 * k + 1] == '1' { 2nat } else { 0nat }) + (
    if s[4 * k + 2] == '1' { 4nat } else { 0nat }) + (if s[4 * k + 3] == '1' { 8nat } else { 0nat })
}

/// How many of the first `k` groups of four characters of `s` have value `v`.
pub open spec fn group_count(s: Seq<char>, v: nat, k: nat) -> nat
    decreases k,
{
    if k == 0 {
        0
    } else {
        group_count(s, v, (k - 1) as nat) + if group_value(s, k - 1) == v { 1nat } else { 0nat }
    }
}

/// The sum of the squared counts of the group values below `v`, over the
/// complete groups of four characters of `s`.
pub open spec fn poker_sum(s: Seq<char>, v: nat) -> nat
    decreases v,
{
    if v == 0 {
        0
    } else {
        let c = group_count(s, (v - 1) as nat, s.len() / 4);
        poker_sum(s, (v - 1) as nat) + c * c
    }
}

/// Monobit test: passes when the number of `1`s lies strictly between 9725
/// and 10275. The sample must be exactly 20 000 bytes long.
pub fn single_bit_test(bits: &str) -> (r: Result)
    requires
        bits.spec_bytes().len() == 20_000,
    ensures
        r == Result::Passed <==> 9725 < count_byte(bits.spec_bytes(), 0x31) < 10275,
{
    let bytes = bits.as_bytes();
    let mut count: usize = 0;
    let mut i: usize = 0;
    while i < bytes.len()
        invariant
            bytes@ == bits.spec_bytes(),
            i <= bytes@.len(),
            count == count_byte(bytes@.subrange(0, i as int), 0x31),
            count <= i,
        decreases bytes@.len() - i,
    {
        proof {
            assert(bytes@.subrange(0, i + 1).drop_last() =~= bytes@.subrange(0, i as int));
        }
        if bytes[i] == 0x31 {
            count = count + 1;
        }
        i = i + 1;
    }
    proof {
        assert(bytes@.subrange(0, i as int) =~= bytes@);
    }
    if count > 9725 && count < 10275 {
        Result::Passed
    } else {
        Result::Failed
    }
}

/// Long-run test: fails when a run of more than 25 equal symbols occurs,
/// a run of ones being what lies between two `0`s and a run of zeros what
/// lies between two `1`s.
pub fn long_series_test(bits: &str) -> (r: Result)
    ensures
        r == Result::Failed <==> has_long_run_without(bits.spec_bytes(), 0x30)
            || has_long_run_without(bits.spec_bytes(), 0x31),
{
    let bytes = bits.as_bytes();
    let ghost s = bytes@;
    let mut without_zero: usize = 0;
    let mut without_one: usize = 0;
    let mut i: usize = 0;
    while i < bytes.len()
        invariant
            s == bytes@,
            s == bits.spec_bytes(),
            i <= s.len(),
            without_zero <= i,
            without_one <= i,
            forall|k: int| i - without_zero <= k < i ==> #[trigger] s[k] != 0x30,
            without_zero < i ==> s[i - without_zero - 1] == 0x30,
            forall|k: int| i - without_one <= k < i ==> #[trigger] s[k] != 0x31,
            without_one < i ==> s[i - without_one - 1] == 0x31,
            without_zero < 26,
            without_one < 26,
            forall|j: int| 0 <= j && j + 26 <= i ==> !#[trigger] run_without(s, 0x30, j),
            forall|j: int| 0 <= j && j + 26 <= i ==> !#[trigger] run_without(s, 0x31, j),
        decreases s.len() - i,
    {
        if bytes[i] == 0x30 {
            without_zero = 0;
        } else {
            without_zero = without_zero + 1;
        }
        if bytes[i] == 0x31 {
            without_one = 0;
        } else {
            without_one = without_one + 1;
        }
        i = i + 1;
        if without_zero >= 26 {
            proof {
                let j = i - 26;
                assert(run_without(s, 0x30, j));
                assert(has_long_run_without(s, 0x30));
            }
            return Result::Failed;
        }
        if without_one >= 26 {
            proof {
                let j = i - 26;
                assert(run_without(s, 0x31, j));
                assert(has_long_run_without(s, 0x31));
            }
            return Result::Failed;
        }
        proof {
            assert forall|j: int| 0 <= j && j + 26 <= i implies !#[trigger] run_without(s, 0x30, j) by {
                if j + 26 == i {
                    assert(s[i - without_zero - 1] == 0x30);
                } else {
                    assert(!run_without(s, 0x30, j));
                }
            }
            assert forall|j: int| 0 <= j && j + 26 <= i implies !#[trigger] run_without(s, 0x31, j) by {
                if j + 26 == i {
                    assert(s[i - without_one - 1] == 0x31);
                } else {
                    assert(!run_without(s, 0x31, j));
                }
            }
        }
    }
    Result::Passed
}

proof fn lemma_group_count_bound(s: Seq<char>, v: nat, k: nat)
    ensures
        group_count(s, v, k) <= k,
    decreases k,
{
    if k > 0 {
        lemma_group_count_bound(s, v, (k - 1) as nat);
    }
}

/// Poker test: the characters are read in complete groups of four, each a
/// number below 16, and with `sum` the sum of the squared counts of the 16
/// values the test passes when `2.16 < 16·sum/5000 − 5000 < 46.17`.
pub fn poker_test(bits: &str) -> (r: Result)
    ensures
        r == Result::Passed <==> 25_010_800 < 16 * poker_sum(bits@, 16) < 25_230_850,
{
    let len = bits.unicode_len();
    let groups = len / 4;
    let ghost s = bits@;
    let mut counts: Vec<u64> = Vec::new();
    let mut v: usize = 0;
    while v < 16
        invariant
            v <= 16,
            counts@.len() == v,
            forall|w: int| 0 <= w < v ==> counts@[w] == 0,
        decreases 16 - v,
    {
        counts.push(0);
        v = v + 1;
    }
    let mut k: usize = 0;
    while k < groups
        invariant
            s == bits@,
            len == s.len(),
            groups == len / 4,
            k <= groups,
            counts@.len() == 16,
            forall|w: int| 0 <= w < 16 ==> #[trigger] counts@[w] == group_count(s, w as nat, k as nat),
            forall|w: int| 0 <= w < 16 ==> #[trigger] counts@[w] <= k,
        decreases groups - k,
    {
        let mut value: usize = 0;
        if bits.get_char(4 * k) == '1' {
            value = value + 1;
        }
        if bits.get_char(4 * k + 1) == '1' {
            value = value + 2;
        }
        if bits.get_char(4 * k + 2) == '1' {
            value = value + 4;
        }
        if bits.get_char(4 * k + 3) == '1' {
            value = value + 8;
        }
        assert(value == group_value(s, k as int));
        let old_count = counts[value];
        counts.set(value, old_count + 1);
        k = k + 1;
    }
    assert(k <= 0x3fff_ffff_ffff_ffff);
    let mut sum: u128 = 0;
    let mut w: usize = 0;
    while w < 16
        invariant
            s == bits@,
            k == s.len() / 4,
            k <= 0x3fff_ffff_ffff_ffff,
            w <= 16,
            counts@.len() == 16,
            forall|x: int| 0 <= x < 16 ==> #[trigger] counts@[x] == group_count(s, x as nat, k as nat),
            forall|x: int| 0 <= x < 16 ==> #[trigger] counts@[x] <= k,
            sum == poker_sum(s, w as nat),
            sum <= w * 0x0fff_ffff_ffff_ffff_ffff_ffff_ffff_ffff,
        decreases 16 - w,
    {
        let c = counts[w] as u128;
        assert(c * c <= 0x0fff_ffff_ffff_ffff_ffff_ffff_ffff_ffff) by (nonlinear_arith)
            requires
                c <= 0x3fff_ffff_ffff_ffff,
        ;
        sum = sum + c * c;
        w = w + 1;
    }
    if sum > 1_563_175 && sum <= 1_576_928 {
        Result::Passed
    } else {
        Result::Failed
    }
}

/// Reading `s` from the left, the lengths of the runs of bytes other than
/// `b` that a `b` has closed, and the length of the open run.
pub open spec fn run_state(s: Seq<u8>, b: u8) -> (Seq<nat>, nat)
    decreases s.len(),
{
    if s.len() == 0 {
        (seq![], 0)
    } else {
        let prev = run_state(s.drop_last(), b);
        if s.last() == b {
            if prev.1 > 0 {
                (prev.0.push(prev.1), 0)
            } else {
                (prev.0, 0)
            }
        } else {
            (prev.0, prev.1 + 1)
        }
    }
}

/// The lengths of the maximal non-empty runs of bytes other than `b` in
/// `s`, in order: the pieces that splitting `s` at `b` leaves.
pub open spec fn runs(s: Seq<u8>, b: u8) -> Seq<nat> {
    let st = run_state(s, b);
    if st.1 > 0 {
        st.0.push(st.1)
    } else {
        st.0
    }
}

/// The length class of a run: its length up to five, six for longer runs.
pub open spec fn length_class(len: nat) -> nat {
    if len > 5 {
        6
    } else {
        len
    }
}

/// How many of the lengths `lens` fall in class `c`.
pub open spec fn class_count(lens: Seq<nat>, c: nat) -> nat
    decreases lens.len(),
{
    if lens.len() == 0 {
        0
    } else {
        class_count(lens.drop_last(), c) + if length_class(lens.last()) == c { 1nat } else { 0nat }
    }
}

/// Lower bound of the accepted number of runs of class `c` (1 to 6).
pub open spec fn band_low(c: nat) -> nat {
    if c == 1 { 2315 } else if c == 2 { 1114 } else if c == 3 { 527 } else if c == 4 { 240 } else { 103 }
}

/// Upper bound of the accepted number of runs of class `c` (1 to 6).
pub open spec fn band_high(c: nat) -> nat {
    if c == 1 { 2685 } else if c == 2 { 1386 } else if c == 3 { 723 } else if c == 4 { 384 } else { 209 }
}

/// The runs of zeros and of ones of a sample by length class: index `k`
/// counts the runs of length `k + 1`, index 5 those longer than five.
pub struct SeriesCounts {
    pub zeros: Vec<usize>,
    pub ones: Vec<usize>,
}

proof fn lemma_class_count_push(lens: Seq<nat>, len: nat, c: nat)
    ensures
        class_count(lens.push(len), c) == class_count(lens, c) + if length_class(len) == c { 1nat } else { 0nat },
{
    assert(lens.push(len).drop_last() =~= lens);
}

proof fn lemma_class_count_bound(lens: Seq<nat>, c: nat)
    ensures
        class_count(lens, c) <= lens.len(),
    decreases lens.len(),
{
    if lens.len() > 0 {
        lemma_class_count_bound(lens.drop_last(), c);
    }
}

fn class_index(len: usize) -> (r: usize)
    requires
        len > 0,
    ensures
        r < 6,
        r + 1 == length_class(len as nat),
{
    if len > 5 {
        5
    } else {
        len - 1
    }
}

/// Counts the runs of zeros (pieces between `1`s) and of ones (pieces
/// between `0`s) of `bits` by length class.
pub fn series_counts(bits: &str) -> (r: SeriesCounts)
    ensures
        r.zeros@.len() == 6,
        r.ones@.len() == 6,
        forall|k: int| 0 <= k < 6 ==> #[trigger] r.zeros@[k] == class_count(runs(bits.spec_bytes(), 0x31), (k + 1) as nat),
        forall|k: int| 0 <= k < 6 ==> #[trigger] r.ones@[k] == class_count(runs(bits.spec_bytes(), 0x30), (k + 1) as nat),
{
    let bytes = bits.as_bytes();
    let ghost s = bytes@;
    let mut zeros: Vec<usize> = vec![0, 0, 0, 0, 0, 0];
    let mut ones: Vec<usize> = vec![0, 0, 0, 0, 0, 0];
    let mut zero_run: usize = 0;
    let mut one_run: usize = 0;
    let mut i: usize = 0;
    proof {
        assert(s.take(0) =~= Seq::<u8>::empty());
    }
    while i < bytes.len()
        invariant
            s == bytes@,
            s == bits.spec_bytes(),
            i <= s.len(),
            zeros@.len() == 6,
            ones@.len() == 6,
            run_state(s.take(i as int), 0x31).1 == zero_run,
            run_state(s.take(i as int), 0x30).1 == one_run,
            run_state(s.take(i as int), 0x31).0.len() + zero_run <= i,
            run_state(s.take(i as int), 0x30).0.len() + one_run <= i,
            forall|k: int| 0 <= k < 6 ==> #[trigger] zeros@[k] == class_count(run_state(s.take(i as int), 0x31).0, (k + 1) as nat),
            forall|k: int| 0 <= k < 6 ==> #[trigger] ones@[k] == class_count(run_state(s.take(i as int), 0x30).0, (k + 1) as nat),
        decreases s.len() - i,
    {
        let b = bytes[i];
        let ghost zs = run_state(s.take(i as int), 0x31);
        let ghost os = run_state(s.take(i as int), 0x30);
        proof {
            assert(s.take(i + 1).drop_last() =~= s.take(i as int));
            assert(s.take(i + 1).last() == b);
        }
        if b == 0x31 {
            if zero_run > 0 {
                let k = class_index(zero_run);
                proof {
                    lemma_class_count_bound(zs.0, (k + 1) as nat);
                    assert forall|c: int| 0 <= c < 6 implies #[trigger] class_count(zs.0.push(zero_run as nat), (c + 1) as nat)
                        == class_count(zs.0, (c + 1) as nat) + if c == k { 1nat } else { 0nat } by {
                        lemma_class_count_push(zs.0, zero_run as nat, (c + 1) as nat);
                    }
                }
                let old = zeros[k];
                zeros.set(k, old + 1);
            }
            zero_run = 0;
        } else {
            zero_run = zero_run + 1;
        }
        if b == 0x30 {
            if one_run > 0 {
                let k = class_index(one_run);
                proof {
                    lemma_class_count_bound(os.0, (k + 1) as nat);
                    assert forall|c: int| 0 <= c < 6 implies #[trigger] class_count(os.0.push(one_run as nat), (c + 1) as nat)
                        == class_count(os.0, (c + 1) as nat) + if c == k { 1nat } else { 0nat } by {
                        lemma_class_count_push(os.0, one_run as nat, (c + 1) as nat);
                    }
                }
                let old = ones[k];
                ones.set(k, old + 1);
            }
            one_run = 0;
        } else {
            one_run = one_run + 1;
        }
        i = i + 1;
    }
    proof {
        assert(s.take(i as int) =~= s);
    }
    if zero_run > 0 {
        let k = class_index(zero_run);
        let ghost zs = run_state(s, 0x31);
        proof {
            lemma_class_count_bound(zs.0, (k + 1) as nat);
            assert forall|c: int| 0 <= c < 6 implies #[trigger] class_count(zs.0.push(zero_run as nat), (c + 1) as nat)
                == class_count(zs.0, (c + 1) as nat) + if c == k { 1nat } else { 0nat } by {
                lemma_class_count_push(zs.0, zero_run as nat, (c + 1) as nat);
            }
        }
        let old = zeros[k];
        zeros.set(k, old + 1);
    }
    if one_run > 0 {
        let k = class_index(one_run);
        let ghost os = run_state(s, 0x30);
        proof {
            lemma_class_count_bound(os.0, (k + 1) as nat);
            assert forall|c: int| 0 <= c < 6 implies #[trigger] class_count(os.0.push(one_run as nat), (c + 1) as nat)
                == class_count(os.0, (c + 1) as nat) + if c == k { 1nat } else { 0nat } by {
                lemma_class_count_push(os.0, one_run as nat, (c + 1) as nat);
            }
        }
        let old = ones[k];
        ones.set(k, old + 1);
    }
    SeriesCounts { zeros, ones }
}

/// Series test: passes when, for zeros and for ones alike, the number of
/// runs of each length class lies in its band.
pub fn series_test(bits: &str) -> (r: Result)
    ensures
        r == Result::Passed <==> forall|k: int| 0 <= k < 6 ==> {
            &&& band_low((k + 1) as nat) <= #[trigger] class_count(runs(bits.spec_bytes(), 0x31), (k + 1) as nat)
                <= band_high((k + 1) as nat)
            &&& band_low((k + 1) as nat) <= class_count(runs(bits.spec_bytes(), 0x30), (k + 1) as nat)
                <= band_high((k + 1) as nat)
        },
{
    let counts = series_counts(bits);
    let low: [usize; 6] = [2315, 1114, 527, 240, 103, 103];
    let high: [usize; 6] = [2685, 1386, 723, 384, 209, 209];
    let mut k: usize = 0;
    while k < 6
        invariant
            k <= 6,
            counts.zeros@.len() == 6,
            counts.ones@.len() == 6,
            forall|j: int| 0 <= j < 6 ==> #[trigger] counts.zeros@[j] == class_count(runs(bits.spec_bytes(), 0x31), (j + 1) as nat),
            forall|j: int| 0 <= j < 6 ==> #[trigger] counts.ones@[j] == class_count(runs(bits.spec_bytes(), 0x30), (j + 1) as nat),
            low@ == seq![2315usize, 1114, 527, 240, 103, 103],
            high@ == seq![2685usize, 1386, 723, 384, 209, 209],
            forall|j: int| 0 <= j < k ==> {
                &&& band_low((j + 1) as nat) <= #[trigger] counts.zeros@[j] <= band_high((j + 1) as nat)
                &&& band_low((j + 1) as nat) <= counts.ones@[j] <= band_high((j + 1) as nat)
            },
        decreases 6 - k,
    {
        assert(low@[k as int] == band_low((k + 1) as nat) && high@[k as int] == band_high((k + 1) as nat));
        if counts.zeros[k] < low[k] || counts.zeros[k] > high[k] || counts.ones[k] < low[k] || counts.ones[k] > high[k] {
            assert(counts.zeros@[k as int] == class_count(runs(bits.spec_bytes(), 0x31), (k + 1) as nat));
            assert(counts.ones@[k as int] == class_count(runs(bits.spec_bytes(), 0x30), (k + 1) as nat));
            return Result::Failed;
        }
        k = k + 1;
    }
    assert forall|j: int| 0 <= j < 6 implies {
        &&& band_low((j + 1) as nat) <= #[trigger] class_count(runs(bits.spec_bytes(), 0x31), (j + 1) as nat)
            <= band_high((j + 1) as nat)
        &&& band_low((j + 1) as nat) <= class_count(runs(bits.spec_bytes(), 0x30), (j + 1) as nat)
            <= band_high((j + 1) as nat)
    } by {
        assert(counts.zeros@[j] == class_count(runs(bits.spec_bytes(), 0x31), (j + 1) as nat));
        assert(counts.ones@[j] == class_count(runs(bits.spec_bytes(), 0x30), (j + 1) as nat));
    }
    Result::Passed
}

} // verus!
