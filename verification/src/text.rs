//! UTF-8 validity, used to accept key and field arguments as text: the spec
//! is the byte-level table of well-formed sequences (shortest-form only,
//! surrogates and values above U+10FFFF excluded), and `is_utf8_bytes`
//! decides it.

use vstd::prelude::*;

verus! {

pub open spec fn is_cont(b: u8) -> bool {
    128 <= b <= 191
}

/// Byte-level well-formedness of UTF-8, one scalar per step.
pub open spec fn is_utf8(s: Seq<u8>) -> bool
    decreases s.len(),
{
    if s.len() == 0 {
        true
    } else {
        let b0 = s[0];
        if b0 < 128 {
            is_utf8(s.skip(1))
        } else if 194 <= b0 <= 223 {
            s.len() >= 2 && is_cont(s[1]) && is_utf8(s.skip(2))
        } else if b0 == 224 {
            s.len() >= 3 && 160 <= s[1] <= 191 && is_cont(s[2]) && is_utf8(s.skip(3))
        } else if 225 <= b0 <= 236 {
            s.len() >= 3 && is_cont(s[1]) && is_cont(s[2]) && is_utf8(s.skip(3))
        } else if b0 == 237 {
            s.len() >= 3 && 128 <= s[1] <= 159 && is_cont(s[2]) && is_utf8(s.skip(3))
        } else if 238 <= b0 <= 239 {
            s.len() >= 3 && is_cont(s[1]) && is_cont(s[2]) && is_utf8(s.skip(3))
        } else if b0 == 240 {
            s.len() >= 4 && 144 <= s[1] <= 191 && is_cont(s[2]) && is_cont(s[3]) && is_utf8(
                s.skip(4),
            )
        } else if 241 <= b0 <= 243 {
            s.len() >= 4 && is_cont(s[1]) && is_cont(s[2]) && is_cont(s[3]) && is_utf8(s.skip(4))
        } else if b0 == 244 {
            s.len() >= 4 && 128 <= s[1] <= 143 && is_cont(s[2]) && is_cont(s[3]) && is_utf8(
                s.skip(4),
            )
        } else {
            false
        }
    }
}

/// Decide `is_utf8` for a byte vector.
pub fn is_utf8_bytes(v: &Vec<u8>) -> (r: bool)
    ensures
        r == is_utf8(v@),
{
    let n = v.len();
    proof {
        assert(v@.skip(0) =~= v@);
    }
    let mut i: usize = 0;
    while i < n
        invariant
            i <= n,
            n == v.len(),
            is_utf8(v@) == is_utf8(v@.skip(i as int)),
        decreases n - i,
    {
        let ghost tail = v@.skip(i as int);
        proof {
            assert(tail[0] == v@[i as int]);
        }
        let b0 = v[i];
        let w: usize;
        if b0 < 128 {
            w = 1;
        } else if 194 <= b0 && b0 <= 223 {
            if n - i < 2 {
                return false;
            }
            proof {
                assert(tail[1] == v@[i + 1]);
            }
            if !(128 <= v[i + 1] && v[i + 1] <= 191) {
                return false;
            }
            w = 2;
        } else if 224 <= b0 && b0 <= 239 {
            if n - i < 3 {
                return false;
            }
            proof {
                assert(tail[1] == v@[i + 1]);
                assert(tail[2] == v@[i + 2]);
            }
            let b1 = v[i + 1];
            let b2 = v[i + 2];
            let ok1: bool = if b0 == 224 {
                160 <= b1 && b1 <= 191
            } else if b0 == 237 {
                128 <= b1 && b1 <= 159
            } else {
                128 <= b1 && b1 <= 191
            };
            if !ok1 || !(128 <= b2 && b2 <= 191) {
                return false;
            }
            w = 3;
        } else if 240 <= b0 && b0 <= 244 {
            if n - i < 4 {
                return false;
            }
            proof {
                assert(tail[1] == v@[i + 1]);
                assert(tail[2] == v@[i + 2]);
                assert(tail[3] == v@[i + 3]);
            }
            let b1 = v[i + 1];
            let b2 = v[i + 2];
            let b3 = v[i + 3];
            let ok1: bool = if b0 == 240 {
                144 <= b1 && b1 <= 191
            } else if b0 == 244 {
                128 <= b1 && b1 <= 143
            } else {
                128 <= b1 && b1 <= 191
            };
            if !ok1 || !(128 <= b2 && b2 <= 191) || !(128 <= b3 && b3 <= 191) {
                return false;
            }
            w = 4;
        } else {
            return false;
        }
        proof {
            assert(v@.skip(i as int).skip(w as int) =~= v@.skip(i + w));
        }
        i = i + w;
    }
    proof {
        assert(v@.skip(n as int) =~= Seq::<u8>::empty());
    }
    true
}

} // verus!
