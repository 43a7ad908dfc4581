use vstd::prelude::*;

verus! {

/// Byte value of the wildcard matching any (possibly empty) run of bytes.
pub const STAR: u8 = 42;

/// Byte value of the wildcard matching exactly one byte.
pub const QUESTION: u8 = 63;

/// Glob matching of `k` against `p`, starting at position `pi` of the
/// pattern and `ki` of the key: `*` matches any run of bytes, `?` matches
/// exactly one byte, and every other byte matches itself.
pub open spec fn glob_match_at(p: Seq<u8>, k: Seq<u8>, pi: int, ki: int) -> bool
    decreases p.len() - pi, k.len() - ki,
{
    if pi < 0 || ki < 0 {
        false
    } else if pi >= p.len() {
        ki >= k.len()
    } else if p[pi] == STAR {
        glob_match_at(p, k, pi + 1, ki) || (ki < k.len() && glob_match_at(p, k, pi, ki + 1))
    } else if ki >= k.len() {
        false
    } else if p[pi] == QUESTION {
        glob_match_at(p, k, pi + 1, ki + 1)
    } else {
        p[pi] == k[ki] && glob_match_at(p, k, pi + 1, ki + 1)
    }
}

/// Whether the whole key `k` matches the whole glob pattern `p`.
pub open spec fn glob_match(p: Seq<u8>, k: Seq<u8>) -> bool {
    glob_match_at(p, k, 0, 0)
}

fn glob_matches_at(p: &Vec<u8>, k: &Vec<u8>, pi: usize, ki: usize) -> (b: bool)
    requires
        pi <= p.len(),
        ki <= k.len(),
    ensures
        b == glob_match_at(p@, k@, pi as int, ki as int),
    decreases p.len() - pi, k.len() - ki,
{
    if pi >= p.len() {
        ki >= k.len()
    } else if p[pi] == STAR {
        if glob_matches_at(p, k, pi + 1, ki) {
            true
        } else if ki < k.len() {
            glob_matches_at(p, k, pi, ki + 1)
        } else {
            false
        }
    } else if ki >= k.len() {
        false
    } else if p[pi] == QUESTION {
        glob_matches_at(p, k, pi + 1, ki + 1)
    } else {
        p[pi] == k[ki] && glob_matches_at(p, k, pi + 1, ki + 1)
    }
}

/// Whether `key` matches the glob `pattern`.
pub fn glob_matches(pattern: &Vec<u8>, key: &Vec<u8>) -> (b: bool)
    ensures
        b == glob_match(pattern@, key@),
{
    glob_matches_at(pattern, key, 0, 0)
}

/// Byte-for-byte equality of two keys.
pub fn bytes_eq(a: &Vec<u8>, b: &Vec<u8>) -> (r: bool)
    ensures
        r == (a@ == b@),
{
    if a.len() != b.len() {
        return false;
    }
    let mut i: usize = 0;
    while i < a.len()
        invariant
            i <= a.len(),
            a.len() == b.len(),
            forall|j: int| 0 <= j < i ==> a@[j] == b@[j],
        decreases a.len() - i,
    {
        if a[i] != b[i] {
            return false;
        }
        i = i + 1;
    }
    proof {
        assert(a@ =~= b@);
    }
    true
}

} // verus!
