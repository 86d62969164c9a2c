//! Input preparation: the letters of a phrase, without its spaces and
//! without the letters that a hint phrase takes out.
use vstd::multiset::Multiset;
use vstd::prelude::*;

verus! {

broadcast use vstd::seq_lib::group_to_multiset_ensures;

/// An ASCII upper-case letter turned to lower case; other bytes unchanged.
pub open spec fn lower_byte(b: u8) -> u8 {
    if 65 <= b <= 90 {
        (b + 32) as u8
    } else {
        b
    }
}

/// The phrase's letters left to right, spaces dropped, each letter dropped
/// while the hint still holds one like it (which it then gives up).
pub open spec fn strip_hint(input: Seq<u8>, hint: Multiset<u8>) -> Seq<u8>
    decreases input.len(),
{
    if input.len() == 0 {
        Seq::empty()
    } else if input[0] == 32 {
        strip_hint(input.drop_first(), hint)
    } else if hint.count(input[0]) > 0 {
        strip_hint(input.drop_first(), hint.remove(input[0]))
    } else {
        seq![input[0]] + strip_hint(input.drop_first(), hint)
    }
}

/// Lower-cases the ASCII letters of `s`.
pub fn ascii_lower(s: &[u8]) -> (r: Vec<u8>)
    ensures
        r@ == s@.map_values(|b: u8| lower_byte(b)),
{
    let mut r: Vec<u8> = Vec::new();
    let mut i: usize = 0;
    while i < s.len()
        invariant
            i <= s@.len(),
            r@ == s@.subrange(0, i as int).map_values(|b: u8| lower_byte(b)),
        decreases s.len() - i,
    {
        let b = s[i];
        let l = if 65 <= b && b <= 90 {
            b + 32
        } else {
            b
        };
        r.push(l);
        assert(r@ =~= s@.subrange(0, i + 1).map_values(|b: u8| lower_byte(b)));
        i = i + 1;
    }
    assert(s@.subrange(0, i as int) =~= s@);
    r
}

/// The letters to search: those of `input` without its spaces, and without
/// one occurrence for each letter of `hint` (the first ones met); a hint
/// letter that `input` does not hold takes nothing.
pub fn make_input_vec(input: &[u8], hint: &[u8]) -> (r: Vec<u8>)
    ensures
        r@ == strip_hint(input@, hint@.to_multiset()),
{
    broadcast use vstd::multiset::group_multiset_axioms;

    let mut counts: Vec<usize> = vec![0usize; 256];
    let mut k: usize = 0;
    while k < hint.len()
        invariant
            k <= hint@.len(),
            counts@.len() == 256,
            forall|x: int|
                0 <= x < 256 ==> #[trigger] counts@[x] == hint@.subrange(0, k as int).to_multiset().count(
                    x as u8,
                ),
            forall|x: int| 0 <= x < 256 ==> #[trigger] counts@[x] <= k,
        decreases hint.len() - k,
    {
        let h = hint[k] as usize;
        counts.set(h, counts[h] + 1);
        assert(hint@.subrange(0, k + 1) =~= hint@.subrange(0, k as int).push(hint[k as int]));
        assert forall|x: int| 0 <= x < 256 implies #[trigger] counts@[x] == hint@.subrange(
            0,
            k + 1,
        ).to_multiset().count(x as u8) by {
            assert((x as u8 == hint[k as int]) == (x == h));
        }
        k = k + 1;
    }
    assert(hint@.subrange(0, k as int) =~= hint@);
    let ghost target = strip_hint(input@, hint@.to_multiset());
    let ghost mut left = hint@.to_multiset();
    let mut v: Vec<u8> = Vec::new();
    let mut i: usize = 0;
    assert(input@.skip(0) =~= input@);
    while i < input.len()
        invariant
            i <= input@.len(),
            counts@.len() == 256,
            forall|x: int| 0 <= x < 256 ==> #[trigger] counts@[x] == left.count(x as u8),
            v@ + strip_hint(input@.skip(i as int), left) == target,
        decreases input.len() - i,
    {
        let c = input[i];
        assert(input@.skip(i as int).drop_first() =~= input@.skip(i + 1));
        assert(input@.skip(i as int)[0] == c);
        if c == 32 {
        } else if counts[c as usize] > 0 {
            counts.set(c as usize, counts[c as usize] - 1);
            proof {
                left = left.remove(c);
                assert forall|x: int| 0 <= x < 256 implies #[trigger] counts@[x] == left.count(
                    x as u8,
                ) by {
                    assert((x as u8 == c) == (x == c as int));
                }
            }
        } else {
            v.push(c);
            assert(v@ + strip_hint(input@.skip(i + 1), left) =~= v@.drop_last() + (seq![c]
                + strip_hint(input@.skip(i + 1), left)));
        }
        i = i + 1;
    }
    assert(input@.skip(i as int) =~= Seq::<u8>::empty());
    assert(v@ + Seq::<u8>::empty() =~= v@);
    v
}

} // verus!
