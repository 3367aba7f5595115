use vstd::prelude::*;

verus! {

/// What `str::to_lowercase` makes of a text: it depends on the characters alone.
pub uninterp spec fn lower_of(s: Seq<char>) -> Seq<char>;

/// `p` stands at position `i` of `s`.
pub open spec fn occurs_at(s: Seq<char>, p: Seq<char>, i: int) -> bool {
    0 <= i && i + p.len() <= s.len() && s.subrange(i, i + p.len()) == p
}

pub open spec fn is_prefix(s: Seq<char>, p: Seq<char>) -> bool {
    occurs_at(s, p, 0)
}

pub open spec fn is_suffix(s: Seq<char>, p: Seq<char>) -> bool {
    occurs_at(s, p, s.len() - p.len())
}

pub open spec fn is_infix(s: Seq<char>, p: Seq<char>) -> bool {
    exists|i: int| occurs_at(s, p, i)
}

/// Relies on `str::to_lowercase`: the lowercase form of a text, a function of
/// its characters; an empty text stays empty.
#[verifier::external_body]
pub(crate) fn lowercase(s: &str) -> (r: String)
    ensures
        r@ == lower_of(s@),
        s@.len() == 0 ==> r@.len() == 0,
{
    s.to_lowercase()
}

/// Whether `p` stands at character position `i` of `s`.
pub fn occurs_at_exec(s: &str, p: &str, i: usize) -> (r: bool)
    ensures
        r == occurs_at(s@, p@, i as int),
{
    let sl = s.unicode_len();
    let pl = p.unicode_len();
    if i > sl || pl > sl - i {
        return false;
    }
    let mut k: usize = 0;
    while k < pl
        invariant
            sl == s@.len(),
            pl == p@.len(),
            i + pl <= sl,
            k <= pl,
            forall|x: int| 0 <= x < k ==> s@[i + x] == p@[x],
        decreases pl - k,
    {
        if s.get_char(i + k) != p.get_char(k) {
            assert(s@.subrange(i as int, i + pl)[k as int] != p@[k as int]);
            return false;
        }
        k = k + 1;
    }
    assert(s@.subrange(i as int, i + pl) =~= p@);
    true
}

/// Whether `p` is a prefix of `s`, as `str::starts_with` decides it.
pub fn starts_with(s: &str, p: &str) -> (r: bool)
    ensures
        r == is_prefix(s@, p@),
{
    occurs_at_exec(s, p, 0)
}

/// Whether `p` is a suffix of `s`, as `str::ends_with` decides it.
pub fn ends_with(s: &str, p: &str) -> (r: bool)
    ensures
        r == is_suffix(s@, p@),
{
    let sl = s.unicode_len();
    let pl = p.unicode_len();
    if pl > sl {
        false
    } else {
        occurs_at_exec(s, p, sl - pl)
    }
}

/// Whether `p` occurs anywhere in `s`, as `str::contains` decides it.
pub fn contains(s: &str, p: &str) -> (r: bool)
    ensures
        r == is_infix(s@, p@),
{
    let sl = s.unicode_len();
    let pl = p.unicode_len();
    if pl > sl {
        return false;
    }
    let mut i: usize = 0;
    while i < sl - pl
        invariant
            sl == s@.len(),
            pl == p@.len(),
            pl <= sl,
            i <= sl - pl,
            forall|x: int| 0 <= x < i ==> !occurs_at(s@, p@, x),
        decreases sl - pl - i,
    {
        if occurs_at_exec(s, p, i) {
            return true;
        }
        i = i + 1;
    }
    let r = occurs_at_exec(s, p, i);
    assert forall|x: int| !r implies !occurs_at(s@, p@, x) by {
        if 0 <= x && x + p@.len() <= s@.len() && x != i {
            assert(x < i);
        }
    }
    r
}

} // verus!
