use vstd::prelude::*;

verus! {

/// A UTF-8 continuation byte.
pub open spec fn is_cont(b: u8) -> bool {
    0x80 <= b <= 0xBF
}

/// Strict UTF-8 validity (RFC 3629): well-formed sequences only, with
/// overlong encodings, surrogates and values past U+10FFFF rejected.
pub open spec fn is_valid_utf8(s: Seq<u8>) -> bool
    decreases s.len(),
{
    if s.len() == 0 {
        true
    } else {
        let b0 = s[0];
        if b0 < 0x80 {
            is_valid_utf8(s.skip(1))
        } else if 0xC2 <= b0 && b0 <= 0xDF {
            s.len() >= 2 && is_cont(s[1]) && is_valid_utf8(s.skip(2))
        } else if b0 == 0xE0 {
            s.len() >= 3 && 0xA0 <= s[1] && s[1] <= 0xBF && is_cont(s[2]) && is_valid_utf8(
                s.skip(3),
            )
        } else if 0xE1 <= b0 && b0 <= 0xEC {
            s.len() >= 3 && is_cont(s[1]) && is_cont(s[2]) && is_valid_utf8(s.skip(3))
        } else if b0 == 0xED {
            s.len() >= 3 && 0x80 <= s[1] && s[1] <= 0x9F && is_cont(s[2]) && is_valid_utf8(
                s.skip(3),
            )
        } else if 0xEE <= b0 && b0 <= 0xEF {
            s.len() >= 3 && is_cont(s[1]) && is_cont(s[2]) && is_valid_utf8(s.skip(3))
        } else if b0 == 0xF0 {
            s.len() >= 4 && 0x90 <= s[1] && s[1] <= 0xBF && is_cont(s[2]) && is_cont(s[3])
                && is_valid_utf8(s.skip(4))
        } else if 0xF1 <= b0 && b0 <= 0xF3 {
            s.len() >= 4 && is_cont(s[1]) && is_cont(s[2]) && is_cont(s[3]) && is_valid_utf8(
                s.skip(4),
            )
        } else if b0 == 0xF4 {
            s.len() >= 4 && 0x80 <= s[1] && s[1] <= 0x8F && is_cont(s[2]) && is_cont(s[3])
                && is_valid_utf8(s.skip(4))
        } else {
            false
        }
    }
}

/// Decides strict UTF-8 validity of a byte sequence.
pub fn validate_utf8(v: &Vec<u8>) -> (r: bool)
    ensures
        r == is_valid_utf8(v@),
{
    let n: usize = v.len();
    proof {
        assert(v@.skip(0) =~= v@);
    }
    let mut i: usize = 0;
    while i < n
        invariant
            0 <= i <= n,
            n == v@.len(),
            is_valid_utf8(v@) == is_valid_utf8(v@.skip(i as int)),
        decreases n - i,
    {
        let ghost pre = v@.skip(i as int);
        let b0: u8 = v[i];
        proof {
            assert(pre[0] == v@[i as int]);
        }
        let width: usize = if b0 < 0x80 {
            1
        } else if 0xC2 <= b0 && b0 <= 0xDF {
            if n - i < 2 || !cont_at(v, i + 1) {
                return false;
            }
            2
        } else if b0 == 0xE0 {
            if n - i < 3 || !(0xA0 <= v[i + 1] && v[i + 1] <= 0xBF) || !cont_at(v, i + 2) {
                return false;
            }
            3
        } else if 0xE1 <= b0 && b0 <= 0xEC {
            if n - i < 3 || !cont_at(v, i + 1) || !cont_at(v, i + 2) {
                return false;
            }
            3
        } else if b0 == 0xED {
            if n - i < 3 || !(0x80 <= v[i + 1] && v[i + 1] <= 0x9F) || !cont_at(v, i + 2) {
                return false;
            }
            3
        } else if 0xEE <= b0 && b0 <= 0xEF {
            if n - i < 3 || !cont_at(v, i + 1) || !cont_at(v, i + 2) {
                return false;
            }
            3
        } else if b0 == 0xF0 {
            if n - i < 4 || !(0x90 <= v[i + 1] && v[i + 1] <= 0xBF) || !cont_at(v, i + 2)
                || !cont_at(v, i + 3) {
                return false;
            }
            4
        } else if 0xF1 <= b0 && b0 <= 0xF3 {
            if n - i < 4 || !cont_at(v, i + 1) || !cont_at(v, i + 2) || !cont_at(v, i + 3) {
                return false;
            }
            4
        } else if b0 == 0xF4 {
            if n - i < 4 || !(0x80 <= v[i + 1] && v[i + 1] <= 0x8F) || !cont_at(v, i + 2)
                || !cont_at(v, i + 3) {
                return false;
            }
            4
        } else {
            return false;
        };
        proof {
            assert(forall|k: int| 0 <= k < pre.len() ==> pre[k] == v@[i + k]);
            assert(pre.skip(width as int) =~= v@.skip(i + width));
        }
        i = i + width;
    }
    proof {
        assert(v@.skip(n as int) =~= Seq::<u8>::empty());
    }
    true
}

/// Whether the byte at `i` is a continuation byte.
fn cont_at(v: &Vec<u8>, i: usize) -> (r: bool)
    requires
        i < v@.len(),
    ensures
        r == is_cont(v@[i as int]),
{
    let b: u8 = v[i];
    0x80 <= b && b <= 0xBF
}

} // verus!
