//! Synthesis of the output pack format and its supported-format bounds from the
//! formats that the inputs declare.
use vstd::prelude::*;
use crate::options::SupportedFormatsPolicy;

verus! {

/// The largest element of a non-empty sequence.
pub open spec fn seq_max(s: Seq<u32>) -> u32
    recommends
        s.len() > 0,
    decreases s.len(),
{
    if s.len() <= 1 {
        s[0]
    } else {
        let m = seq_max(s.drop_last());
        if s.last() > m {
            s.last()
        } else {
            m
        }
    }
}

/// The smallest element of a non-empty sequence.
pub open spec fn seq_min(s: Seq<u32>) -> u32
    recommends
        s.len() > 0,
    decreases s.len(),
{
    if s.len() <= 1 {
        s[0]
    } else {
        let m = seq_min(s.drop_last());
        if s.last() < m {
            s.last()
        } else {
            m
        }
    }
}

/// The pack format of the output: the override when given, else the highest
/// declared format, else 1.
pub open spec fn final_format_of(override_format: Option<u32>, found: Seq<u32>) -> u32 {
    match override_format {
        Some(v) => v,
        None => if found.len() == 0 {
            1
        } else {
            seq_max(found)
        },
    }
}

/// `[1, high]`, or `[1]` when `high` is at most 1.
pub open spec fn one_to(high: u32) -> Seq<u32> {
    if high <= 1 {
        seq![1u32]
    } else {
        seq![1u32, high]
    }
}

/// The supported-format bounds under `policy`, given the declared formats and the
/// final pack format.
pub open spec fn supported_bounds_of(
    policy: SupportedFormatsPolicy,
    found: Seq<u32>,
    final_format: u32,
) -> Seq<u32> {
    match policy {
        SupportedFormatsPolicy::LowestToHighest => if found.len() == 0 {
            seq![final_format]
        } else if seq_min(found) == seq_max(found) {
            seq![seq_min(found)]
        } else {
            seq![seq_min(found), seq_max(found)]
        },
        _ => one_to(
            if found.len() == 0 {
                final_format
            } else {
                seq_max(found)
            },
        ),
    }
}

/// The max format of the output: the highest explicit max format declared, else
/// the upper supported bound.
pub open spec fn max_format_of(found_max: Seq<u32>, bounds: Seq<u32>) -> u32
    recommends
        bounds.len() > 0,
{
    if found_max.len() == 0 {
        bounds.last()
    } else {
        seq_max(found_max)
    }
}

/// The largest element of a non-empty vector.
pub fn max_of(v: &Vec<u32>) -> (r: u32)
    requires
        v@.len() > 0,
    ensures
        r == seq_max(v@),
{
    let mut m = v[0];
    let mut i: usize = 1;
    while i < v.len()
        invariant
            1 <= i <= v@.len(),
            m == seq_max(v@.take(i as int)),
        decreases v@.len() - i,
    {
        assert(v@.take(i as int + 1).drop_last() == v@.take(i as int));
        if v[i] > m {
            m = v[i];
        }
        i = i + 1;
    }
    assert(v@.take(v@.len() as int) == v@);
    m
}

/// The smallest element of a non-empty vector.
pub fn min_of(v: &Vec<u32>) -> (r: u32)
    requires
        v@.len() > 0,
    ensures
        r == seq_min(v@),
{
    let mut m = v[0];
    let mut i: usize = 1;
    while i < v.len()
        invariant
            1 <= i <= v@.len(),
            m == seq_min(v@.take(i as int)),
        decreases v@.len() - i,
    {
        assert(v@.take(i as int + 1).drop_last() == v@.take(i as int));
        if v[i] < m {
            m = v[i];
        }
        i = i + 1;
    }
    assert(v@.take(v@.len() as int) == v@);
    m
}

/// The pack format to write: the override when given, else the highest declared
/// format, else 1.
pub fn final_pack_format(override_format: Option<u32>, found: &Vec<u32>) -> (r: u32)
    ensures
        r == final_format_of(override_format, found@),
{
    match override_format {
        Some(v) => v,
        None => if found.len() == 0 {
            1
        } else {
            max_of(found)
        },
    }
}

fn one_to_exec(high: u32) -> (r: Vec<u32>)
    ensures
        r@ == one_to(high),
{
    if high <= 1 {
        vec![1u32]
    } else {
        vec![1u32, high]
    }
}

/// The supported-format bounds under `policy`: `[1, highest]` (one-to-highest and
/// one-to-latest) or `[lowest, highest]` (lowest-to-highest), collapsed to one
/// element when both ends agree.
pub fn supported_formats(policy: SupportedFormatsPolicy, found: &Vec<u32>, final_format: u32) -> (r:
    Vec<u32>)
    ensures
        r@ == supported_bounds_of(policy, found@, final_format),
        r@.len() > 0,
{
    match policy {
        SupportedFormatsPolicy::LowestToHighest => {
            if found.len() == 0 {
                vec![final_format]
            } else {
                let low = min_of(found);
                let high = max_of(found);
                if low == high {
                    vec![low]
                } else {
                    vec![low, high]
                }
            }
        },
        _ => {
            let high = if found.len() == 0 {
                final_format
            } else {
                max_of(found)
            };
            one_to_exec(high)
        },
    }
}

/// The max format to write: the highest explicit max format declared, else the
/// upper supported bound.
pub fn actual_max_format(found_max: &Vec<u32>, bounds: &Vec<u32>) -> (r: u32)
    requires
        bounds@.len() > 0,
    ensures
        r == max_format_of(found_max@, bounds@),
{
    if found_max.len() == 0 {
        bounds[bounds.len() - 1]
    } else {
        max_of(found_max)
    }
}

/// An explicit pack format decides the output format, whatever the inputs declare.
pub proof fn override_decides_pack_format(v: u32, found: Seq<u32>, other: Seq<u32>)
    ensures
        final_format_of(Some(v), found) == v,
        final_format_of(Some(v), found) == final_format_of(Some(v), other),
{
}

} // verus!
