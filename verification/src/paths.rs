//! Normalization of asset paths picked in the file browser.
//!
//! Textures are addressed relative to the asset root, but the file browser
//! hands back a full path such as `game/assets/sprites/punch.png`.
//! [`normalize_path`] keeps what follows the first `assets` component of a
//! `/`-separated path — here `sprites/punch.png` — and yields an empty path
//! when no such component exists or nothing follows it.

use vstd::prelude::*;

use crate::persistence::tail;

verus! {

/// The bytes of the `assets` path component.
pub open spec fn assets_component() -> Seq<u8> {
    seq![97u8, 115u8, 115u8, 101u8, 116u8, 115u8]
}

/// The length of the first `/`-separated component of `s`.
pub open spec fn comp_len(s: Seq<u8>) -> nat
    decreases s.len(),
{
    if s.len() == 0 || s[0] == 47 {
        0
    } else {
        1 + comp_len(tail(s, 1))
    }
}

/// What remains of a path after its first `assets` component: everything
/// past the separator that follows it.  Without an `assets` component the
/// result is empty.
pub open spec fn spec_normalized(s: Seq<u8>) -> Seq<u8>
    decreases s.len(),
{
    let k = comp_len(s);
    if s.take(k as int) == assets_component() {
        tail(s, k + 1)
    } else if k >= s.len() {
        Seq::empty()
    } else {
        spec_normalized(tail(s, k + 1))
    }
}

/// A component never runs past the input, holds no separator, and stops at
/// one.
proof fn lemma_comp_len_facts(s: Seq<u8>)
    ensures
        comp_len(s) <= s.len(),
        forall|j: int| 0 <= j < comp_len(s) ==> (#[trigger] s[j]) != 47,
        comp_len(s) < s.len() ==> s[comp_len(s) as int] == 47,
    decreases s.len(),
{
    if s.len() > 0 && s[0] != 47 {
        lemma_comp_len_facts(tail(s, 1));
        assert(tail(s, 1) =~= s.skip(1));
        assert forall|j: int| 0 <= j < comp_len(s) implies (#[trigger] s[j]) != 47 by {
            if j > 0 {
                assert(s.skip(1)[j - 1] == s[j]);
            }
        }
        if comp_len(s) < s.len() {
            assert(s.skip(1)[comp_len(s) - 1] == s[comp_len(s) as int]);
        }
    }
}

/// Strips everything up to and including the first `assets` component of a
/// `/`-separated path, keeping the rest verbatim.
pub fn normalize_path(full_path: &Vec<u8>) -> (r: Vec<u8>)
    ensures
        r@ == spec_normalized(full_path@),
{
    let n = full_path.len();
    proof {
        assert(full_path@.skip(0) =~= full_path@);
    }
    let mut pos: usize = 0;
    loop
        invariant
            0 <= pos <= full_path@.len(),
            n == full_path@.len(),
            full_path@.len() <= usize::MAX,
            spec_normalized(full_path@) == spec_normalized(full_path@.skip(pos as int)),
        decreases full_path@.len() - pos,
    {
        let ghost s = full_path@.skip(pos as int);
        proof {
            lemma_comp_len_facts(s);
        }
        // Measure the current component.
        let mut e: usize = pos;
        while e < full_path.len() && full_path[e] != 47
            invariant
                pos <= e <= full_path@.len(),
                s == full_path@.skip(pos as int),
                comp_len(s) <= s.len(),
                forall|j: int| 0 <= j < comp_len(s) ==> (#[trigger] s[j]) != 47,
                comp_len(s) < s.len() ==> s[comp_len(s) as int] == 47,
                e - pos <= comp_len(s),
                full_path@.len() <= usize::MAX,
            decreases full_path@.len() - e,
        {
            proof {
                assert(s[e - pos] == full_path@[e as int]);
                if e - pos == comp_len(s) {
                    assert(comp_len(s) < s.len());
                }
            }
            e = e + 1;
        }
        proof {
            if e - pos < comp_len(s) {
                assert(s[e - pos] != 47);
                assert(s[e - pos] == full_path@[e as int]);
                assert(pos + comp_len(s) <= full_path@.len());
                assert(e < full_path@.len());
                assert(false);
            }
            assert(e - pos == comp_len(s));
        }
        // Does it spell `assets`?
        let is_assets = if e - pos == 6 {
            full_path[pos] == 97 && full_path[pos + 1] == 115 && full_path[pos + 2] == 115
                && full_path[pos + 3] == 101 && full_path[pos + 4] == 116 && full_path[pos + 5]
                == 115
        } else {
            false
        };
        proof {
            let comp = s.take(comp_len(s) as int);
            if is_assets {
                assert forall|j: int| 0 <= j < 6 implies comp[j] == assets_component()[j] by {
                    assert(comp[j] == s[j]);
                    assert(s[j] == full_path@[pos + j]);
                }
                assert(comp =~= assets_component());
            } else {
                if comp == assets_component() {
                    assert(comp.len() == 6);
                    assert(comp[0] == s[0] == full_path@[pos as int]);
                    assert(comp[1] == s[1] == full_path@[pos + 1]);
                    assert(comp[2] == s[2] == full_path@[pos + 2]);
                    assert(comp[3] == s[3] == full_path@[pos + 3]);
                    assert(comp[4] == s[4] == full_path@[pos + 4]);
                    assert(comp[5] == s[5] == full_path@[pos + 5]);
                }
                assert(comp != assets_component());
            }
        }
        if is_assets {
            // Keep everything after the separator that follows `assets`.
            let mut r: Vec<u8> = Vec::new();
            let start = if e < full_path.len() {
                e + 1
            } else {
                full_path.len()
            };
            let mut i: usize = start;
            while i < full_path.len()
                invariant
                    start <= i <= full_path@.len(),
                    r@ == full_path@.skip(start as int).take(i - start),
                decreases full_path@.len() - i,
            {
                r.push(full_path[i]);
                proof {
                    assert(r@ =~= full_path@.skip(start as int).take(i + 1 - start));
                }
                i = i + 1;
            }
            proof {
                let rest = full_path@.skip(start as int);
                assert(rest.take(rest.len() as int) =~= rest);
                assert(tail(s, comp_len(s) + 1) =~= rest);
            }
            return r;
        }
        if e == full_path.len() {
            let r: Vec<u8> = Vec::new();
            proof {
                assert(comp_len(s) >= s.len());
                assert(r@ =~= Seq::<u8>::empty());
            }
            return r;
        }
        proof {
            assert(tail(s, comp_len(s) + 1) =~= full_path@.skip(e + 1));
        }
        pos = e + 1;
    }
}

} // verus!
