use crate::parse::{parse_u64, u64_of};
use crate::solution::{decimal, decimal_string, InputError};
use crate::text::{lines, text_lines};
use vstd::prelude::*;
use vstd::string::StringSliceAdditionalSpecFns;
use vstd::utf8::encode_utf8;

verus! {

/// A rotation of the safe's dial: a line `L` followed by a number of clicks turns left,
/// toward lower numbers; any other first byte turns right.
pub open spec fn rotation_of(line: Seq<u8>) -> Option<int> {
    if line.len() >= 1 {
        match u64_of(line.skip(1)) {
            Some(v) => if v <= i32::MAX {
                Some(
                    if line[0] == 76 {
                        -(v as int)
                    } else {
                        v as int
                    },
                )
            } else {
                None
            },
            None => None,
        }
    } else {
        None
    }
}

pub open spec fn all_rotations(ls: Seq<Seq<u8>>) -> bool {
    forall|i: int| 0 <= i < ls.len() ==> (#[trigger] rotation_of(ls[i])) is Some
}

pub open spec fn rotations(ls: Seq<Seq<u8>>) -> Seq<int> {
    ls.map_values(|l: Seq<u8>| rotation_of(l)->0)
}

/// Where the dial, which starts at 50 and has 100 positions, points after the rotations.
pub open spec fn dial_after(ms: Seq<int>) -> int
    decreases ms.len(),
{
    if ms.len() == 0 {
        50
    } else {
        (dial_after(ms.drop_last()) + ms.last()) % 100
    }
}

/// Number of rotations after which the dial points at 0.
pub open spec fn zero_stops(ms: Seq<int>) -> nat
    decreases ms.len(),
{
    if ms.len() == 0 {
        0
    } else {
        zero_stops(ms.drop_last()) + if dial_after(ms) == 0 {
            1nat
        } else {
            0nat
        }
    }
}

/// Number of clicks of a rotation by `m` from `a` that leave the dial at 0: the multiples of
/// 100 in (`a`, `a + m`] turning right, in [`a + m`, `a`) turning left.
pub open spec fn zero_clicks_of(a: int, m: int) -> int {
    if m > 0 {
        (a + m) / 100 - a / 100
    } else {
        (a - 1) / 100 - (a + m - 1) / 100
    }
}

/// Number of clicks, over all the rotations, that leave the dial at 0.
pub open spec fn zero_clicks(ms: Seq<int>) -> int
    decreases ms.len(),
{
    if ms.len() == 0 {
        0
    } else {
        zero_clicks(ms.drop_last()) + zero_clicks_of(dial_after(ms.drop_last()), ms.last())
    }
}

proof fn lemma_dial_range(ms: Seq<int>)
    ensures
        0 <= dial_after(ms) < 100,
    decreases ms.len(),
{
    if ms.len() > 0 {
        lemma_dial_range(ms.drop_last());
    }
}

proof fn lemma_clicks_nonneg(a: int, m: int)
    ensures
        zero_clicks_of(a, m) >= 0,
{
    if m > 0 {
        vstd::arithmetic::div_mod::lemma_div_is_ordered(a, a + m, 100);
    } else {
        vstd::arithmetic::div_mod::lemma_div_is_ordered(a + m - 1, a - 1, 100);
    }
}

proof fn lemma_stops_bound(ms: Seq<int>)
    ensures
        zero_stops(ms) <= ms.len(),
    decreases ms.len(),
{
    if ms.len() > 0 {
        lemma_stops_bound(ms.drop_last());
    }
}

/// `x` divided by 100, rounding down.
fn floor_div100(x: i64) -> (q: i64)
    requires
        -0x1_0000_0000 <= x <= 0x1_0000_0000,
    ensures
        q == x / 100,
{
    let k: i64 = 0x1_0000_0000;
    let y = (x + 100 * k) as u64;
    let q = (y / 100) as i64 - k;
    assert(q == x / 100) by {
        vstd::arithmetic::div_mod::lemma_fundamental_div_mod(y as int, 100);
        vstd::arithmetic::div_mod::lemma_fundamental_div_mod_converse(
            x as int,
            100,
            (y / 100) as int - k,
            (y % 100) as int,
        );
    }
    q
}

/// The rotations that the lines of `input` spell, or `Malformed` if one does not spell any.
fn parse_rotations(input: &str) -> (r: Result<Vec<i64>, InputError>)
    ensures
        ({
            let ls = text_lines(input.spec_bytes());
            &&& r is Ok <==> all_rotations(ls)
            &&& r matches Ok(ms) ==> ms@.len() == ls.len() && forall|i: int|
                0 <= i < ls.len() ==> #[trigger] ms@[i] == rotations(ls)[i]
            &&& r matches Err(e) ==> e == InputError::Malformed
        }),
{
    let ls = lines(input.as_bytes());
    let ghost model = text_lines(input.spec_bytes());
    let mut ms: Vec<i64> = Vec::new();
    let mut i: usize = 0;
    while i < ls.len()
        invariant
            model == text_lines(input.spec_bytes()),
            ls@.len() == model.len(),
            forall|k: int| 0 <= k < ls@.len() ==> #[trigger] ls@[k]@ == model[k],
            i <= ls@.len(),
            ms@.len() == i,
            forall|k: int| 0 <= k < i ==> (#[trigger] rotation_of(model[k])) is Some,
            forall|k: int| 0 <= k < i ==> #[trigger] ms@[k] == rotations(model)[k],
        decreases ls@.len() - i,
    {
        let line = &ls[i];
        assert(line@ == model[i as int]);
        if line.len() == 0 {
            assert(rotation_of(model[i as int]) is None);
            return Err(InputError::Malformed);
        }
        let rest = &line.as_slice()[1..line.len()];
        assert(rest@ =~= line@.skip(1));
        match parse_u64(rest) {
            Some(v) => {
                if v > i32::MAX as u64 {
                    assert(rotation_of(model[i as int]) is None);
                    return Err(InputError::Malformed);
                }
                let m = if line[0] == 76 {
                    -(v as i64)
                } else {
                    v as i64
                };
                ms.push(m);
            },
            None => {
                assert(rotation_of(model[i as int]) is None);
                return Err(InputError::Malformed);
            },
        }
        i += 1;
    }
    Ok(ms)
}

/// Number of rotations of the input that leave the dial at 0.
pub fn part1(input: String) -> (r: Result<String, InputError>)
    ensures
        ({
            let ls = text_lines(encode_utf8(input@));
            &&& r is Ok <==> all_rotations(ls)
            &&& r matches Ok(s) ==> s@ == decimal(zero_stops(rotations(ls)))
            &&& r matches Err(e) ==> e == InputError::Malformed
        }),
{
    let ms = parse_rotations(input.as_str())?;
    let ghost model = rotations(text_lines(encode_utf8(input@)));
    let mut angle: i64 = 50;
    let mut zeros: usize = 0;
    let mut i: usize = 0;
    assert(model.take(0) =~= Seq::<int>::empty());
    while i < ms.len()
        invariant
            ms@.len() == model.len(),
            forall|k: int| 0 <= k < ms@.len() ==> #[trigger] ms@[k] == model[k],
            forall|k: int| 0 <= k < ms@.len() ==> i32::MIN < #[trigger] ms@[k] <= i32::MAX,
            i <= ms@.len(),
            angle == dial_after(model.take(i as int)),
            zeros == zero_stops(model.take(i as int)),
            zeros <= i,
        decreases ms@.len() - i,
    {
        proof {
            assert(model.take(i + 1).drop_last() =~= model.take(i as int));
            lemma_dial_range(model.take(i as int));
        }
        let x = angle + ms[i];
        angle = x - 100 * floor_div100(x);
        proof {
            vstd::arithmetic::div_mod::lemma_fundamental_div_mod(x as int, 100);
        }
        if angle == 0 {
            zeros += 1;
        }
        i += 1;
    }
    assert(model.take(model.len() as int) =~= model);
    Ok(decimal_string(zeros as u64))
}

/// Number of clicks, over all the rotations of the input, that leave the dial at 0.
pub fn part2(input: String) -> (r: Result<String, InputError>)
    ensures
        ({
            let ls = text_lines(encode_utf8(input@));
            &&& r is Ok <==> all_rotations(ls) && zero_clicks(rotations(ls)) <= u64::MAX
            &&& r matches Ok(s) ==> s@ == decimal(zero_clicks(rotations(ls)) as nat)
            &&& r matches Err(e) ==> e == if all_rotations(ls) {
                InputError::TooLarge
            } else {
                InputError::Malformed
            }
        }),
{
    let ms = parse_rotations(input.as_str())?;
    let ghost model = rotations(text_lines(encode_utf8(input@)));
    let mut angle: i64 = 50;
    let mut passed: u64 = 0;
    let mut i: usize = 0;
    assert(model.take(0) =~= Seq::<int>::empty());
    while i < ms.len()
        invariant
            model == rotations(text_lines(encode_utf8(input@))),
            all_rotations(text_lines(encode_utf8(input@))),
            ms@.len() == model.len(),
            forall|k: int| 0 <= k < ms@.len() ==> #[trigger] ms@[k] == model[k],
            forall|k: int| 0 <= k < ms@.len() ==> i32::MIN < #[trigger] ms@[k] <= i32::MAX,
            i <= ms@.len(),
            angle == dial_after(model.take(i as int)),
            passed == zero_clicks(model.take(i as int)),
        decreases ms@.len() - i,
    {
        proof {
            assert(model.take(i + 1).drop_last() =~= model.take(i as int));
            lemma_dial_range(model.take(i as int));
            lemma_clicks_nonneg(angle as int, ms@[i as int] as int);
        }
        let arc = ms[i];
        let x = angle + arc;
        let step = if arc > 0 {
            floor_div100(x)
        } else {
            floor_div100(angle - 1) - floor_div100(x - 1)
        };
        assert(step == zero_clicks_of(angle as int, arc as int));
        if passed > u64::MAX - step as u64 {
            proof {
                lemma_clicks_grow(model, i as int + 1);
                assert(model.take(i + 1).last() == model[i as int]);
                assert(zero_clicks(model.take(i + 1)) == zero_clicks(model.take(i as int))
                    + zero_clicks_of(dial_after(model.take(i as int)), model[i as int]));
            }
            return Err(InputError::TooLarge);
        }
        passed = passed + step as u64;
        angle = x - 100 * floor_div100(x);
        proof {
            vstd::arithmetic::div_mod::lemma_fundamental_div_mod(x as int, 100);
        }
        i += 1;
    }
    assert(model.take(model.len() as int) =~= model);
    Ok(decimal_string(passed))
}

/// The count of clicks at 0 never falls as rotations are added.
proof fn lemma_clicks_grow(ms: Seq<int>, k: int)
    requires
        0 <= k <= ms.len(),
    ensures
        zero_clicks(ms.take(k)) <= zero_clicks(ms),
    decreases ms.len() - k,
{
    if k < ms.len() {
        lemma_clicks_grow(ms, k + 1);
        assert(ms.take(k + 1).drop_last() =~= ms.take(k));
        lemma_clicks_nonneg(dial_after(ms.take(k)), ms.take(k + 1).last());
    } else {
        assert(ms.take(k) =~= ms);
    }
}

} // verus!
