//! Run priorities: a directory entry's relative run priority is the number
//! its file name starts with; entries without a leading number run last.

use vstd::prelude::*;
use vstd::string::StringSliceAdditionalSpecFns;
use vstd::string::StrSliceExecFns;

verus! {

/// A relevant entry's relative run priority, ordered so that a higher
/// number runs after a lower one and unnumbered entries run last.
#[derive(Debug, Clone, Copy, PartialEq, Eq, Structural)]
pub enum Priority {
    Number(u64),
    Unranked,
}

/// Whether a byte is an ASCII digit.
pub open spec fn spec_is_numeric(b: u8) -> bool {
    48 <= b < 58
}

/// Checks if a byte is an ASCII numeric byte.
pub fn is_numeric(b: u8) -> (r: bool)
    ensures
        r == spec_is_numeric(b),
{
    48 <= b && b < 58
}

/// The leading run of ASCII digits of a byte string.
pub open spec fn digits_prefix(bs: Seq<u8>) -> Seq<u8>
    decreases bs.len(),
{
    if bs.len() > 0 && spec_is_numeric(bs[0]) {
        seq![bs[0]] + digits_prefix(bs.drop_first())
    } else {
        Seq::empty()
    }
}

/// The numeric value of a digit string.
pub open spec fn digits_val(ds: Seq<u8>) -> nat
    decreases ds.len(),
{
    if ds.len() == 0 {
        0
    } else {
        (digits_val(ds.drop_last()) * 10 + (ds.last() - 48)) as nat
    }
}

/// When the first `n` bytes are digits and the next one is not, the digit
/// prefix is exactly those `n` bytes.
proof fn lemma_digits_prefix(bs: Seq<u8>, n: int)
    requires
        0 <= n <= bs.len(),
        forall|i: int| 0 <= i < n ==> spec_is_numeric(#[trigger] bs[i]),
        n < bs.len() ==> !spec_is_numeric(bs[n]),
    ensures
        digits_prefix(bs) == bs.subrange(0, n),
    decreases n,
{
    if n == 0 {
        assert(bs.subrange(0, 0) =~= Seq::<u8>::empty());
    } else {
        assert(forall|i: int| 0 <= i < n - 1 ==> #[trigger] bs.drop_first()[i] == bs[i + 1]);
        lemma_digits_prefix(bs.drop_first(), n - 1);
        assert(bs.drop_first().subrange(0, n - 1) =~= bs.subrange(1, n));
        assert(bs.subrange(0, n) =~= seq![bs[0]] + bs.subrange(1, n));
    }
}

/// Extending a digit string never shrinks its value.
proof fn lemma_digits_val_prefix_le(ds: Seq<u8>, i: int)
    requires
        0 <= i <= ds.len(),
        forall|j: int| 0 <= j < ds.len() ==> spec_is_numeric(#[trigger] ds[j]),
    ensures
        digits_val(ds.subrange(0, i)) <= digits_val(ds),
    decreases ds.len(),
{
    if i < ds.len() {
        assert(forall|j: int|
            0 <= j < ds.drop_last().len() ==> #[trigger] ds.drop_last()[j] == ds[j]);
        lemma_digits_val_prefix_le(ds.drop_last(), i);
        assert(ds.drop_last().subrange(0, i) =~= ds.subrange(0, i));
        assert(digits_val(ds) >= digits_val(ds.drop_last())) by {
            assert(ds.last() >= 48);
        }
    } else {
        assert(ds.subrange(0, i) =~= ds);
    }
}

impl Priority {
    /// Parse the relative run priority out of a file name: the leading
    /// digits give the number, no digits means unranked, and a leading
    /// number too large for 64 bits is refused.
    pub fn try_from_str(s: &str) -> (r: Option<Priority>)
        ensures
            ({
                let ds = digits_prefix(s.spec_bytes());
                &&& ds.len() == 0 ==> r == Some(Priority::Unranked)
                &&& (ds.len() > 0 && digits_val(ds) <= u64::MAX) ==> r == Some(
                    Priority::Number((digits_val(ds) as u64)),
                )
                &&& (r is None <==> digits_val(ds) > u64::MAX)
            }),
    {
        let bytes = s.as_bytes_vec();
        let ghost bs = s.spec_bytes();
        let len = bytes.len();
        // length of the leading digit run
        let mut n: usize = 0;
        while n < len
            invariant_except_break
                bytes@ == bs,
                len == bs.len(),
                n <= len,
                forall|i: int| 0 <= i < n ==> spec_is_numeric(#[trigger] bs[i]),
            ensures
                bytes@ == bs,
                len == bs.len(),
                n <= len,
                forall|i: int| 0 <= i < n ==> spec_is_numeric(#[trigger] bs[i]),
                n < len ==> !spec_is_numeric(bs[n as int]),
            decreases len - n,
        {
            if !is_numeric(bytes[n]) {
                break ;
            }
            n = n + 1;
        }
        proof {
            lemma_digits_prefix(bs, n as int);
        }
        let ghost ds = digits_prefix(bs);
        if n == 0 {
            proof {
                assert(ds.len() == 0);
            }
            return Some(Priority::Unranked);
        }
        proof {
            assert forall|j: int| 0 <= j < ds.len() implies spec_is_numeric(
                #[trigger] ds[j],
            ) by {
                assert(ds[j] == bs[j]);
            }
        }
        let mut acc: u64 = 0;
        let mut i: usize = 0;
        while i < n
            invariant
                bytes@ == bs,
                bs == s.spec_bytes(),
                0 < n <= bs.len(),
                ds == bs.subrange(0, n as int),
                ds == digits_prefix(bs),
                forall|j: int| 0 <= j < n ==> spec_is_numeric(#[trigger] bs[j]),
                forall|j: int| 0 <= j < ds.len() ==> spec_is_numeric(#[trigger] ds[j]),
                i <= n,
                acc as nat == digits_val(ds.subrange(0, i as int)),
            decreases n - i,
        {
            let d = bytes[i] - 48;
            if acc > (u64::MAX - (d as u64)) / 10 {
                proof {
                    let cur = ds.subrange(0, (i + 1) as int);
                    assert(cur.drop_last() =~= ds.subrange(0, i as int));
                    assert(cur.last() == bs[i as int]);
                    assert(digits_val(cur) > u64::MAX) by (nonlinear_arith)
                        requires
                            digits_val(cur) == digits_val(cur.drop_last()) * 10 + (cur.last()
                                - 48),
                            cur.last() - 48 == d,
                            0 <= d < 10,
                            digits_val(cur.drop_last()) == acc as nat,
                            acc > (u64::MAX - (d as u64)) / 10,
                    ;
                    lemma_digits_val_prefix_le(ds, i + 1);
                    assert(digits_val(ds) > u64::MAX);
                }
                return None;
            }
            proof {
                let cur = ds.subrange(0, (i + 1) as int);
                assert(cur.drop_last() =~= ds.subrange(0, i as int));
                assert(cur.last() == bs[i as int]);
                assert(acc * 10 + d <= u64::MAX) by (nonlinear_arith)
                    requires
                        0 <= d < 10,
                        acc <= (u64::MAX - (d as u64)) / 10,
                ;
            }
            acc = acc * 10 + (d as u64);
            i = i + 1;
        }
        proof {
            assert(ds.subrange(0, n as int) =~= ds);
        }
        Some(Priority::Number(acc))
    }
}

/// The sorting outcome: a numbered entry before an unnumbered one, numbered
/// entries by their number, unnumbered entries tied.
pub open spec fn spec_by_priority(a: Priority, b: Priority) -> core::cmp::Ordering {
    match (a, b) {
        (Priority::Number(x), Priority::Number(y)) => if x < y {
            core::cmp::Ordering::Less
        } else if x == y {
            core::cmp::Ordering::Equal
        } else {
            core::cmp::Ordering::Greater
        },
        (Priority::Number(_), Priority::Unranked) => core::cmp::Ordering::Less,
        (Priority::Unranked, Priority::Number(_)) => core::cmp::Ordering::Greater,
        (Priority::Unranked, Priority::Unranked) => core::cmp::Ordering::Equal,
    }
}

/// Helper for a directory walker's sort: entries with a priority run first,
/// in numeric order; entries without one run last.
pub fn by_priority(a: &Priority, b: &Priority) -> (r: core::cmp::Ordering)
    ensures
        r == spec_by_priority(*a, *b),
{
    match (a, b) {
        (Priority::Number(x), Priority::Number(y)) => {
            if x < y {
                core::cmp::Ordering::Less
            } else if x == y {
                core::cmp::Ordering::Equal
            } else {
                core::cmp::Ordering::Greater
            }
        },
        (Priority::Number(_), Priority::Unranked) => core::cmp::Ordering::Less,
        (Priority::Unranked, Priority::Number(_)) => core::cmp::Ordering::Greater,
        (Priority::Unranked, Priority::Unranked) => core::cmp::Ordering::Equal,
    }
}

} // verus!
