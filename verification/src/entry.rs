//! Parsing of persisted project-list lines.
//!
//! A line is either a bare path, or a *recursive root*: a path followed by
//! a depth suffix of the shape `<dir> --depth <digits>` reaching to the end
//! of the line.  A malformed suffix (no marker, trailing non-digits, or a
//! number too large for `u32`) leaves the line a bare path.

use vstd::prelude::*;

verus! {

/// A parsed project-list line: the path, and the expansion depth when the
/// line carried a well-formed depth suffix.
pub struct Entry {
    pub path: String,
    pub depth: Option<u32>,
}

/// The depth marker that separates the path from the digits.
pub open spec fn marker_spec() -> Seq<char> {
    " --depth "@
}

/// True of the ten decimal digit characters.
pub open spec fn is_digit(c: char) -> bool {
    48 <= (c as u32) && (c as u32) <= 57
}

/// True when `s` is a non-empty run of decimal digits.
pub open spec fn all_digits(s: Seq<char>) -> bool {
    s.len() > 0 && forall|i: int| 0 <= i < s.len() ==> is_digit(s[i])
}

/// The number denoted by a digit run, most significant digit first.
pub open spec fn digits_val(s: Seq<char>) -> nat
    decreases s.len(),
{
    if s.len() == 0 {
        0
    } else {
        10 * digits_val(s.drop_last()) + ((s.last() as u32 - 48) as nat)
    }
}

/// True when `s` splits at `k` into a path, the depth marker, and a
/// non-empty digit run reaching the end of the line.
pub open spec fn is_depth_split(s: Seq<char>, k: int) -> bool {
    &&& 0 <= k
    &&& k + 9 < s.len()
    &&& s.subrange(k, k + 9) == marker_spec()
    &&& all_digits(s.skip(k + 9))
}

/// A line admits at most one depth split: the digit run of an earlier
/// split would have to contain the blank of a later marker.
pub proof fn lemma_split_unique(s: Seq<char>, k1: int, k2: int)
    requires
        is_depth_split(s, k1),
        k1 < k2,
    ensures
        !is_depth_split(s, k2),
{
    if is_depth_split(s, k2) {
        reveal_strlit(" --depth ");
        assert(s.subrange(k2, k2 + 9)[8] == s[k2 + 8]);
        assert(s[k2 + 8] == ' ');
        assert(s.skip(k1 + 9)[k2 + 8 - (k1 + 9)] == s[k2 + 8]);
        assert(is_digit(s[k2 + 8]));
        assert((' ' as u32) == 32);
    }
}

/// The value of a digit run never shrinks as the run grows to the right.
proof fn lemma_digits_val_extend(s: Seq<char>, i: int)
    requires
        0 <= i <= s.len(),
    ensures
        digits_val(s.take(i)) <= digits_val(s),
    decreases s.len() - i,
{
    if i == s.len() {
        assert(s.take(i) =~= s);
    } else {
        assert(s.take(i + 1).drop_last() =~= s.take(i));
        assert(digits_val(s.take(i + 1)) >= digits_val(s.take(i)));
        lemma_digits_val_extend(s, i + 1);
    }
}

/// Decides whether `s` is a non-empty run of decimal digits.
pub fn check_all_digits(s: &str) -> (b: bool)
    ensures
        b == all_digits(s@),
{
    let len = s.unicode_len();
    if len == 0 {
        return false;
    }
    let mut i: usize = 0;
    while i < len
        invariant
            i <= len,
            len == s@.len(),
            len > 0,
            forall|k: int| 0 <= k < i ==> is_digit(s@[k]),
        decreases len - i,
    {
        let c = s.get_char(i);
        let code = c as u32;
        if code < 48 || code > 57 {
            return false;
        }
        i += 1;
    }
    true
}

/// Reads a digit run as a `u32`; `None` exactly when the value does not fit.
pub fn parse_u32_digits(s: &str) -> (r: Option<u32>)
    requires
        all_digits(s@),
    ensures
        match r {
            Some(n) => digits_val(s@) <= u32::MAX && n as nat == digits_val(s@),
            None => digits_val(s@) > u32::MAX,
        },
{
    let len = s.unicode_len();
    let mut val: u32 = 0;
    let mut i: usize = 0;
    proof {
        assert(s@.take(0) =~= Seq::<char>::empty());
    }
    while i < len
        invariant
            i <= len,
            len == s@.len(),
            all_digits(s@),
            val as nat == digits_val(s@.take(i as int)),
        decreases len - i,
    {
        let c = s.get_char(i);
        let code = c as u32;
        assert(is_digit(s@[i as int]));
        let d = code - 48;
        if val > 429496729 || (val == 429496729 && d > 5) {
            proof {
                assert(s@.take(i + 1).drop_last() =~= s@.take(i as int));
                assert(digits_val(s@.take(i + 1)) > u32::MAX);
                lemma_digits_val_extend(s@, i + 1);
            }
            return None;
        }
        val = val * 10 + d;
        proof {
            assert(s@.take(i + 1).drop_last() =~= s@.take(i as int));
        }
        i += 1;
    }
    proof {
        assert(s@.take(len as int) =~= s@);
    }
    Some(val)
}

/// How a parsed entry relates to its line: a well-formed depth suffix
/// yields the path before the marker and the depth value; any other line,
/// including one whose depth value overflows `u32`, is a bare path.
pub open spec fn entry_matches(line: Seq<char>, e: Entry) -> bool {
    match e.depth {
        Some(n) => {
            &&& is_depth_split(line, e.path@.len() as int)
            &&& e.path@ == line.take(e.path@.len() as int)
            &&& n as nat == digits_val(line.skip(e.path@.len() as int + 9))
        },
        None => {
            &&& e.path@ == line
            &&& forall|k: int| is_depth_split(line, k) ==> digits_val(line.skip(k + 9)) > u32::MAX
        },
    }
}

/// Parses one project-list line.
pub fn parse_entry(line: &str) -> (e: Entry)
    ensures
        entry_matches(line@, e),
{
    let len = line.unicode_len();
    if len < 10 {
        return Entry { path: line.to_owned(), depth: None };
    }
    let mut k: usize = 0;
    while k + 9 < len
        invariant
            len == line@.len(),
            k + 9 <= len,
            forall|k2: int| 0 <= k2 < k ==> !is_depth_split(line@, k2),
        decreases len - k,
    {
        let seg = line.substring_char(k, k + 9);
        let marker_here = starts_with_marker(seg);
        if marker_here {
            let digits = line.substring_char(k + 9, len);
            if check_all_digits(digits) {
                assert(is_depth_split(line@, k as int)) by {
                    assert(line@.skip(k + 9) =~= line@.subrange(k + 9, len as int));
                };
                match parse_u32_digits(digits) {
                    Some(n) => {
                        let path_part = line.substring_char(0, k);
                        let e = Entry { path: String::from_str(path_part), depth: Some(n) };
                        proof {
                            assert(e.path@ =~= line@.take(k as int));
                            assert(line@.skip(k + 9) =~= line@.subrange(k + 9, len as int));
                        }
                        return e;
                    },
                    None => {
                        proof {
                            assert(line@.skip(k + 9) =~= line@.subrange(k + 9, len as int));
                            assert forall|k2: int|
                                is_depth_split(line@, k2) implies digits_val(
                                line@.skip(k2 + 9),
                            ) > u32::MAX by {
                                if k2 > k as int {
                                    lemma_split_unique(line@, k as int, k2);
                                }
                            };
                        }
                        return Entry { path: line.to_owned(), depth: None };
                    },
                }
            } else {
                proof {
                    assert(line@.skip(k + 9) =~= line@.subrange(k + 9, len as int));
                    assert(!is_depth_split(line@, k as int));
                }
            }
        } else {
            assert(!is_depth_split(line@, k as int));
        }
        k += 1;
    }
    assert(forall|k2: int| !is_depth_split(line@, k2));
    Entry { path: line.to_owned(), depth: None }
}

/// Decides whether the nine-character segment `seg` is the depth marker.
pub(crate) fn starts_with_marker(seg: &str) -> (r: bool)
    ensures
        r == (seg@.len() == 9 && is_marker(seg@)),
{
    let len = seg.unicode_len();
    if len != 9 {
        return false;
    }
    let m = " --depth ";
    proof {
        reveal_strlit(" --depth ");
    }
    let mut j: usize = 0;
    while j < 9
        invariant
            j <= 9,
            seg@.len() == 9,
            m@ == marker_spec(),
            m@.len() == 9,
            forall|i: int| 0 <= i < j ==> seg@[i] == marker_spec()[i],
        decreases 9 - j,
    {
        if seg.get_char(j) != m.get_char(j) {
            assert(seg@[j as int] != marker_spec()[j as int]);
            return false;
        }
        j += 1;
    }
    assert(seg@ =~= marker_spec());
    true
}

/// True when the nine characters of `s` are exactly the depth marker.
pub open spec fn is_marker(s: Seq<char>) -> bool {
    s == marker_spec()
}

} // verus!
