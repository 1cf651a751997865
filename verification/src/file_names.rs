//! Which files of a directory are taken for MRT data, by their names.
use vstd::prelude::*;

verus! {

/// An ASCII letter made lower case; other bytes unchanged.
pub open spec fn ascii_lower(b: u8) -> u8 {
    if 65 <= b <= 90 {
        (b + 32) as u8
    } else {
        b
    }
}

/// A byte string with its ASCII letters made lower case.
pub open spec fn lowered(s: Seq<u8>) -> Seq<u8> {
    s.map_values(|b: u8| ascii_lower(b))
}

/// The position of the last dot among the first `n` bytes, or -1.
pub open spec fn last_dot_before(s: Seq<u8>, n: int) -> int
    decreases n,
{
    if n <= 0 {
        -1
    } else if s[n - 1] == 46 {
        n - 1
    } else {
        last_dot_before(s, n - 1)
    }
}

/// The extension of a file name: the bytes after its last dot, when that
/// dot is not the name's first byte; nothing otherwise.
pub open spec fn extension(s: Seq<u8>) -> Seq<u8> {
    let k = last_dot_before(s, s.len() as int);
    if k > 0 {
        s.subrange(k + 1, s.len() as int)
    } else {
        Seq::empty()
    }
}

/// `t` occurs in `s`.
pub open spec fn occurs_in(t: Seq<u8>, s: Seq<u8>) -> bool {
    exists|i: int| 0 <= i && i + t.len() <= s.len() && #[trigger] s.subrange(i, i + t.len()) == t
}

/// A file name (its UTF-8 bytes) that marks MRT data: the extension is gz,
/// bz2, mrt or rib, or the name holds rib, updates or mrt, letters compared
/// without case. (Lower-casing the ASCII letters decides these tests as
/// lower-casing all of Unicode would: no other character lowers to one of
/// these letters without a combining mark after it.)
pub open spec fn is_mrt_name(s: Seq<u8>) -> bool {
    let e = lowered(extension(s));
    let l = lowered(s);
    ||| e == seq![103u8, 122u8]
    ||| e == seq![98u8, 122u8, 50u8]
    ||| e == seq![109u8, 114u8, 116u8]
    ||| e == seq![114u8, 105u8, 98u8]
    ||| occurs_in(seq![114u8, 105u8, 98u8], l)
    ||| occurs_in(seq![117u8, 112u8, 100u8, 97u8, 116u8, 101u8, 115u8], l)
    ||| occurs_in(seq![109u8, 114u8, 116u8], l)
}

fn ascii_lower_exec(b: u8) -> (r: u8)
    ensures
        r == ascii_lower(b),
{
    if 65 <= b && b <= 90 {
        b + 32
    } else {
        b
    }
}

/// The position of the last dot of `s`, if any.
fn last_dot(s: &[u8]) -> (r: Option<usize>)
    ensures
        match r {
            Some(k) => k < s@.len() && k as int == last_dot_before(s@, s@.len() as int),
            None => last_dot_before(s@, s@.len() as int) == -1,
        },
{
    let mut n: usize = s.len();
    while n > 0
        invariant
            n <= s@.len(),
            last_dot_before(s@, s@.len() as int) == last_dot_before(s@, n as int),
        decreases n,
    {
        if s[n - 1] == 46 {
            return Some(n - 1);
        }
        n = n - 1;
    }
    None
}

/// Whether `s[start..start + t.len()]`, lower-cased, is `t`.
fn lower_matches_at(s: &[u8], start: usize, t: &[u8]) -> (r: bool)
    requires
        start + t@.len() <= s@.len(),
    ensures
        r == (lowered(s@.subrange(start as int, start + t@.len())) == t@),
{
    let ghost w = lowered(s@.subrange(start as int, start + t@.len()));
    let n = s.len();
    let mut i: usize = 0;
    while i < t.len()
        invariant
            i <= t@.len(),
            n == s@.len(),
            start + t@.len() <= s@.len(),
            w == lowered(s@.subrange(start as int, start + t@.len())),
            forall|j: int| 0 <= j < i ==> w[j] == t@[j],
        decreases t@.len() - i,
    {
        if ascii_lower_exec(s[start + i]) != t[i] {
            assert(w[i as int] != t@[i as int]);
            return false;
        }
        i = i + 1;
    }
    assert(w =~= t@);
    true
}

/// Whether `t` occurs in `s` lower-cased.
fn lower_contains(s: &[u8], t: &[u8]) -> (r: bool)
    ensures
        r == occurs_in(t@, lowered(s@)),
{
    if t.len() > s.len() {
        return false;
    }
    if t.len() == 0 {
        assert(lowered(s@).subrange(0int, 0int + t@.len()) =~= t@);
        return true;
    }
    let n = s.len();
    let last = n - t.len();
    let mut i: usize = 0;
    while i <= last
        invariant
            n == s@.len(),
            last + t@.len() == s@.len(),
            t@.len() > 0,
            forall|j: int|
                0 <= j < i && j <= last ==> #[trigger] lowered(s@).subrange(j, j + t@.len()) != t@,
        decreases last + 1 - i,
    {
        if lower_matches_at(s, i, t) {
            assert(lowered(s@).subrange(i as int, i + t@.len()) =~= lowered(s@.subrange(i as int, i + t@.len())));
            return true;
        }
        assert(lowered(s@).subrange(i as int, i + t@.len()) =~= lowered(s@.subrange(i as int, i + t@.len())));
        i = i + 1;
    }
    proof {
        assert forall|j: int|
            0 <= j && j + t@.len() <= lowered(s@).len() implies #[trigger] lowered(s@).subrange(j, j + t@.len())
            != t@ by {}
    }
    false
}

/// Whether a file name (its UTF-8 bytes) marks MRT data (see
/// [`is_mrt_name`]).
pub fn is_mrt_file_name(name: &[u8]) -> (r: bool)
    ensures
        r == is_mrt_name(name@),
{
    let ext: &[u8] = match last_dot(name) {
        Some(k) => {
            if k > 0 {
                let n = name.len();
                &name[k + 1..n]
            } else {
                &name[0..0]
            }
        },
        None => &name[0..0],
    };
    assert(ext@ == extension(name@));
    let gz: Vec<u8> = vec![103, 122];
    let bz2: Vec<u8> = vec![98, 122, 50];
    let mrt: Vec<u8> = vec![109, 114, 116];
    let rib: Vec<u8> = vec![114, 105, 98];
    let updates: Vec<u8> = vec![117, 112, 100, 97, 116, 101, 115];
    let ext_is = |t: &Vec<u8>| -> (m: bool)
        ensures
            m == (lowered(ext@) == t@),
        {
            if ext.len() != t.len() {
                assert(lowered(ext@).len() != t@.len());
                false
            } else {
                let m = lower_matches_at(ext, 0, t.as_slice());
                assert(ext@.subrange(0, t@.len() as int) =~= ext@);
                m
            }
        };
    let r = ext_is(&gz) || ext_is(&bz2) || ext_is(&mrt) || ext_is(&rib) || lower_contains(name, rib.as_slice())
        || lower_contains(name, updates.as_slice()) || lower_contains(name, mrt.as_slice());
    assert(gz@ =~= seq![103u8, 122u8]);
    assert(bz2@ =~= seq![98u8, 122u8, 50u8]);
    assert(mrt@ =~= seq![109u8, 114u8, 116u8]);
    assert(rib@ =~= seq![114u8, 105u8, 98u8]);
    assert(updates@ =~= seq![117u8, 112u8, 100u8, 97u8, 116u8, 101u8, 115u8]);
    r
}

} // verus!
