//! ASCII case folding and byte comparison, as the store's lookups use them.
use vstd::prelude::*;

verus! {

/// The code of `c` after ASCII lower-casing: `A`..`Z` map to `a`..`z`,
/// everything else is unchanged.
pub open spec fn lower_code(c: char) -> u32 {
    if 'A' <= c && c <= 'Z' {
        ((c as u32) + 32) as u32
    } else {
        c as u32
    }
}

/// A string after ASCII lower-casing, as character codes.
pub open spec fn folded(s: Seq<char>) -> Seq<u32> {
    s.map_values(|c: char| lower_code(c))
}

/// Two strings are equal once ASCII letters are folded to lower case.
pub open spec fn eq_nocase(a: Seq<char>, b: Seq<char>) -> bool {
    folded(a) == folded(b)
}

/// Relies on `str::to_ascii_lowercase`: each ASCII capital becomes its small
/// letter and every other character stays.
#[verifier::external_body]
pub(crate) fn to_lower(s: &str) -> (r: String)
    ensures
        folded(r@) == folded(s@),
        r@.len() == s@.len(),
        forall|i: int| 0 <= i < s@.len() ==> (#[trigger] r@[i]) as u32 == lower_code(s@[i]),
{
    s.to_ascii_lowercase()
}

/// Case-insensitive comparison of two strings, folding ASCII letters only.
pub fn equals_nocase(a: &str, b: &str) -> (r: bool)
    ensures
        r == eq_nocase(a@, b@),
{
    let n = a.unicode_len();
    let m = b.unicode_len();
    if n != m {
        assert(folded(a@).len() != folded(b@).len());
        return false;
    }
    let mut i: usize = 0;
    while i < n
        invariant
            n == a@.len(),
            m == b@.len(),
            n == m,
            i <= n,
            forall|j: int| 0 <= j < i ==> lower_code(a@[j]) == lower_code(b@[j]),
        decreases n - i,
    {
        let x = a.get_char(i);
        let y = b.get_char(i);
        let lx: u32 = if 'A' <= x && x <= 'Z' { (x as u32) + 32 } else { x as u32 };
        let ly: u32 = if 'A' <= y && y <= 'Z' { (y as u32) + 32 } else { y as u32 };
        if lx != ly {
            assert(folded(a@)[i as int] != folded(b@)[i as int]);
            return false;
        }
        i = i + 1;
    }
    assert(folded(a@) =~= folded(b@));
    true
}

/// Byte-for-byte equality of two byte strings.
pub fn bytes_equal(a: &[u8], b: &[u8]) -> (r: bool)
    ensures
        r == (a@ == b@),
{
    if a.len() != b.len() {
        return false;
    }
    let mut i: usize = 0;
    while i < a.len()
        invariant
            a@.len() == b@.len(),
            i <= a@.len(),
            forall|j: int| 0 <= j < i ==> a@[j] == b@[j],
        decreases a@.len() - i,
    {
        if a[i] != b[i] {
            return false;
        }
        i = i + 1;
    }
    assert(a@ =~= b@);
    true
}

/// Compares two strings exactly.
pub fn same_text(a: &str, b: &str) -> (r: bool)
    ensures
        r == (a@ == b@),
{
    let n = a.unicode_len();
    if n != b.unicode_len() {
        return false;
    }
    let mut i: usize = 0;
    while i < n
        invariant
            n == a@.len(),
            n == b@.len(),
            i <= n,
            forall|j: int| 0 <= j < i ==> a@[j] == b@[j],
        decreases n - i,
    {
        if a.get_char(i) != b.get_char(i) {
            return false;
        }
        i = i + 1;
    }
    assert(a@ =~= b@);
    true
}


/// `a` sorts no later than `b` from position `i` on, comparing characters
/// by code point; a prefix sorts first.
pub open spec fn text_le_from(a: Seq<char>, b: Seq<char>, i: nat) -> bool
    decreases a.len() - i,
{
    if i >= a.len() {
        true
    } else if i >= b.len() {
        false
    } else if (a[i as int] as u32) != (b[i as int] as u32) {
        (a[i as int] as u32) < (b[i as int] as u32)
    } else {
        text_le_from(a, b, i + 1)
    }
}

/// `a` sorts no later than `b` (code-point order, as UTF-8 bytes sort).
pub open spec fn text_le(a: Seq<char>, b: Seq<char>) -> bool {
    text_le_from(a, b, 0)
}

/// Any two texts are ordered one way or the other.
pub proof fn lemma_text_le_total(a: Seq<char>, b: Seq<char>, i: nat)
    ensures
        text_le_from(a, b, i) || text_le_from(b, a, i),
    decreases a.len() - i,
{
    if i < a.len() && i < b.len() && (a[i as int] as u32) == (b[i as int] as u32) {
        lemma_text_le_total(a, b, i + 1);
    }
}

/// The text order is transitive.
pub proof fn lemma_text_le_trans(a: Seq<char>, b: Seq<char>, c: Seq<char>, i: nat)
    requires
        text_le_from(a, b, i),
        text_le_from(b, c, i),
    ensures
        text_le_from(a, c, i),
    decreases a.len() - i,
{
    if i < a.len() && i < b.len() && i < c.len() && (a[i as int] as u32) == (b[i as int] as u32)
        && (b[i as int] as u32) == (c[i as int] as u32) {
        lemma_text_le_trans(a, b, c, i + 1);
    }
}

/// Whether `a` sorts no later than `b`.
pub fn text_le_exec(a: &str, b: &str) -> (r: bool)
    ensures
        r == text_le(a@, b@),
{
    let n = a.unicode_len();
    let m = b.unicode_len();
    let mut i: usize = 0;
    while i < n && i < m
        invariant
            n == a@.len(),
            m == b@.len(),
            i <= n,
            i <= m,
            text_le_from(a@, b@, 0) == text_le_from(a@, b@, i as nat),
        decreases n - i,
    {
        let x = a.get_char(i) as u32;
        let y = b.get_char(i) as u32;
        if x != y {
            return x < y;
        }
        i = i + 1;
    }
    i >= n
}

} // verus!
