use vstd::prelude::*;

verus! {

/// The sign bit of an IEEE-754 double.
pub const SIGN_BIT: u64 = 0x8000_0000_0000_0000;

/// The order key of the IEEE-754 double whose bits are `bits`. On doubles
/// that are not NaN, keys order as the doubles do: non-negative values keep
/// their bits with the sign bit set, negative values take the complement of
/// their bits, and negative zero takes the key of positive zero.
pub open spec fn order_key_spec(bits: u64) -> u64 {
    if bits < SIGN_BIT {
        (bits + SIGN_BIT) as u64
    } else if bits == SIGN_BIT {
        SIGN_BIT
    } else {
        (u64::MAX - bits) as u64
    }
}

/// The order key of a hit parameter, given by its bits.
pub fn order_key(bits: u64) -> (r: u64)
    ensures
        r == order_key_spec(bits),
{
    if bits < SIGN_BIT {
        bits + SIGN_BIT
    } else if bits == SIGN_BIT {
        SIGN_BIT
    } else {
        u64::MAX - bits
    }
}

/// The least key among the surfaces that were hit (`Some`), or `None` when
/// no surface was hit.
pub open spec fn nearest_key(keys: Seq<Option<u64>>) -> Option<u64>
    decreases keys.len(),
{
    if keys.len() == 0 {
        None
    } else {
        let last = keys.last();
        match nearest_key(keys.drop_last()) {
            None => last,
            Some(a) => match last {
                None => Some(a),
                Some(b) => if b < a {
                    Some(b)
                } else {
                    Some(a)
                },
            },
        }
    }
}

/// `nearest_key` is the least key present, and is `None` only where no key is.
pub proof fn lemma_nearest_key_is_least(keys: Seq<Option<u64>>)
    ensures
        match nearest_key(keys) {
            None => forall|j: int| 0 <= j < keys.len() ==> (#[trigger] keys[j]) is None,
            Some(k) => keys.contains(Some(k)) && forall|j: int|
                0 <= j < keys.len() && (#[trigger] keys[j]) is Some ==> k <= keys[j]->Some_0,
        },
    decreases keys.len(),
{
    if keys.len() > 0 {
        let init = keys.drop_last();
        lemma_nearest_key_is_least(init);
        assert forall|j: int| 0 <= j < init.len() implies init[j] == keys[j] by {}
        match nearest_key(init) {
            None => {},
            Some(a) => {
                let i = choose|i: int| 0 <= i < init.len() && init[i] == Some(a);
                assert(keys[i] == Some(a));
            },
        }
        if let Some(k) = nearest_key(keys) {
            if keys.last() == Some(k) {
                assert(keys[keys.len() - 1] == Some(k));
            }
        }
    }
}

/// Which surface was hit closest: the nearest key is the same whatever the
/// order in which the surfaces were added to the scene.
pub proof fn lemma_nearest_key_order_independent(a: Seq<Option<u64>>, b: Seq<Option<u64>>)
    requires
        a.to_multiset() == b.to_multiset(),
    ensures
        nearest_key(a) == nearest_key(b),
{
    lemma_nearest_key_is_least(a);
    lemma_nearest_key_is_least(b);
    assert forall|x: Option<u64>| a.contains(x) <==> b.contains(x) by {
        vstd::seq_lib::to_multiset_contains(a, x);
        vstd::seq_lib::to_multiset_contains(b, x);
    }
    match (nearest_key(a), nearest_key(b)) {
        (Some(ka), Some(kb)) => {
            let i = choose|i: int| 0 <= i < b.len() && b[i] == Some(ka);
            let j = choose|j: int| 0 <= j < a.len() && a[j] == Some(kb);
            assert(kb <= ka);
            assert(ka <= kb);
        },
        (Some(ka), None) => {
            let i = choose|i: int| 0 <= i < b.len() && b[i] == Some(ka);
            assert(b[i] is None);
        },
        (None, Some(kb)) => {
            let j = choose|j: int| 0 <= j < a.len() && a[j] == Some(kb);
            assert(a[j] is None);
        },
        (None, None) => {},
    }
}

/// The index of the closest hit: `keys[i]` is the order key of the hit
/// parameter of surface `i`, or `None` where the ray misses it. The result is
/// the first surface whose key is least, or `None` when every surface is missed.
pub fn closest_hit(keys: &Vec<Option<u64>>) -> (r: Option<usize>)
    ensures
        r is None <==> forall|j: int| 0 <= j < keys@.len() ==> (#[trigger] keys@[j]) is None,
        r is None <==> nearest_key(keys@) is None,
        r matches Some(i) ==> {
            &&& i < keys@.len()
            &&& keys@[i as int] == nearest_key(keys@)
            &&& forall|j: int| 0 <= j < i ==> (#[trigger] keys@[j]) != keys@[i as int]
        },
{
    let mut best: Option<usize> = None;
    let mut best_key: u64 = 0;
    let mut i: usize = 0;
    while i < keys.len()
        invariant
            i <= keys@.len(),
            match best {
                None => nearest_key(keys@.take(i as int)) is None,
                Some(b) => {
                    &&& b < i
                    &&& keys@[b as int] == Some(best_key)
                    &&& nearest_key(keys@.take(i as int)) == Some(best_key)
                    &&& forall|j: int| 0 <= j < b ==> (#[trigger] keys@[j]) != keys@[b as int]
                },
            },
        decreases keys@.len() - i,
    {
        let prefix = Ghost(keys@.take(i as int));
        let next = Ghost(keys@.take(i as int + 1));
        proof {
            lemma_nearest_key_is_least(prefix@);
            assert(next@.drop_last() =~= prefix@);
            assert(next@.last() == keys@[i as int]);
            assert forall|j: int| 0 <= j < i implies prefix@[j] == keys@[j] by {}
        }
        if let Some(k) = keys[i] {
            let closer = match best {
                None => true,
                Some(_) => k < best_key,
            };
            if closer {
                proof {
                    assert(nearest_key(next@) == Some(k));
                    assert forall|j: int| 0 <= j < i implies (#[trigger] keys@[j]) != Some(k) by {
                        assert(prefix@[j] == keys@[j]);
                    }
                }
                best = Some(i);
                best_key = k;
            } else {
                assert(nearest_key(next@) == Some(best_key));
            }
        } else {
            assert(nearest_key(next@) == nearest_key(prefix@));
        }
        i = i + 1;
        assert(keys@.take(i as int) == next@);
    }
    proof {
        assert(keys@.take(i as int) =~= keys@);
        lemma_nearest_key_is_least(keys@);
    }
    best
}

} // verus!
