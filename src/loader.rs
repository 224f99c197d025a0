use vstd::prelude::*;

use crate::scene::Face;

verus! {

/// Why a face line of an OBJ file could not be read.
#[derive(Debug, Clone, Copy, PartialEq, Eq, Structural)]
pub enum ObjError {
    /// The line has fewer than three corners after `f`.
    MissingCorner,
    /// A corner's vertex number is not a positive decimal number that fits a `usize`.
    BadIndex,
}

/// Length of the run at the start of `s` before the first `sep` (all of `s` if there is none).
pub open spec fn run_len(s: Seq<u8>, sep: u8) -> nat
    decreases s.len(),
{
    if s.len() == 0 || s[0] == sep {
        0
    } else {
        1 + run_len(s.drop_first(), sep)
    }
}

/// Field `k` (from 0) of `s` cut at every `sep`, empty fields included; `None` when
/// `s` has fewer fields.
pub open spec fn field(s: Seq<u8>, sep: u8, k: nat) -> Option<Seq<u8>>
    decreases s.len(),
{
    let n = run_len(s, sep);
    if k == 0 {
        Some(s.take(n as int))
    } else if n < s.len() {
        field(s.skip(n + 1 as int), sep, (k - 1) as nat)
    } else {
        None
    }
}

pub open spec fn is_digit(c: u8) -> bool {
    48 <= c <= 57
}

pub open spec fn all_digits(s: Seq<u8>) -> bool {
    forall|i: int| 0 <= i < s.len() ==> is_digit(#[trigger] s[i])
}

/// The number that the decimal digits `s` write.
pub open spec fn digits_value(s: Seq<u8>) -> int
    decreases s.len(),
{
    if s.len() == 0 {
        0
    } else {
        digits_value(s.drop_last()) * 10 + (s.last() - 48)
    }
}

/// The number that `s` writes as an unsigned decimal: an optional `+`, then one or
/// more digits.
pub open spec fn unsigned_text(s: Seq<u8>) -> Option<int> {
    let d = if s.len() > 0 && s[0] == 43 {
        s.drop_first()
    } else {
        s
    };
    if d.len() > 0 && all_digits(d) {
        Some(digits_value(d))
    } else {
        None
    }
}

/// The zero-based vertex that a corner field such as `7`, `7/2` or `7/2/5` names: the
/// one-based number before the first `/`, which must be at least 1 and fit a `usize`.
pub open spec fn corner_index(corner: Seq<u8>) -> Option<int> {
    match unsigned_text(corner.take(run_len(corner, 47) as int)) {
        Some(v) => if 1 <= v <= usize::MAX {
            Some(v - 1)
        } else {
            None
        },
        None => None,
    }
}

/// What a line of an OBJ file says of faces: nothing unless its first space-separated
/// field is `f`; otherwise the triangle whose corners fields 1 to 3 name. Fields
/// after the third are not read.
pub open spec fn face_line(line: Seq<u8>) -> Result<Option<Face>, ObjError> {
    if field(line, 32, 0) != Some(seq![102u8]) {
        Ok(None)
    } else if field(line, 32, 1) is None || field(line, 32, 2) is None || field(line, 32, 3) is None {
        Err(ObjError::MissingCorner)
    } else {
        let a = corner_index(field(line, 32, 1)->0);
        let b = corner_index(field(line, 32, 2)->0);
        let c = corner_index(field(line, 32, 3)->0);
        if a is None || b is None || c is None {
            Err(ObjError::BadIndex)
        } else {
            Ok(Some(Face { v0: a->0 as usize, v1: b->0 as usize, v2: c->0 as usize }))
        }
    }
}

proof fn lemma_run_len_step(s: Seq<u8>, p: int, end: int, sep: u8)
    requires
        0 <= p < end <= s.len(),
        s[p] != sep,
    ensures
        run_len(s.subrange(p, end), sep) == 1 + run_len(s.subrange(p + 1, end), sep),
{
    assert(s.subrange(p, end).drop_first() =~= s.subrange(p + 1, end));
}

/// First position in `[start, end)` that holds `sep`, or `end`.
fn run_end(s: &[u8], start: usize, end: usize, sep: u8) -> (p: usize)
    requires
        start <= end <= s@.len(),
    ensures
        start <= p <= end,
        p - start == run_len(s@.subrange(start as int, end as int), sep),
{
    let mut p = start;
    while p < end && s[p] != sep
        invariant
            start <= p <= end <= s@.len(),
            run_len(s@.subrange(start as int, end as int), sep) == (p - start) + run_len(
                s@.subrange(p as int, end as int),
                sep,
            ),
        decreases end - p,
    {
        proof {
            lemma_run_len_step(s@, p as int, end as int, sep);
        }
        p += 1;
    }
    p
}

/// Bounds of field `k` of `s` cut at `sep`.
fn nth_field(s: &[u8], sep: u8, k: usize) -> (r: Option<(usize, usize)>)
    ensures
        match r {
            None => field(s@, sep, k as nat) is None,
            Some((a, b)) => a <= b <= s@.len() && field(s@, sep, k as nat) == Some(
                s@.subrange(a as int, b as int),
            ),
        },
{
    let len = s.len();
    let mut start: usize = 0;
    let mut j: usize = 0;
    assert(s@.subrange(0, len as int) =~= s@);
    while j < k
        invariant
            j <= k,
            start <= len == s@.len(),
            field(s@, sep, k as nat) == field(
                s@.subrange(start as int, len as int),
                sep,
                (k - j) as nat,
            ),
        decreases k - j,
    {
        let e = run_end(s, start, len, sep);
        if e == len {
            return None;
        }
        assert(s@.subrange(start as int, len as int).skip(e - start + 1) =~= s@.subrange(
            e + 1,
            len as int,
        ));
        start = e + 1;
        j += 1;
    }
    let e = run_end(s, start, len, sep);
    assert(s@.subrange(start as int, len as int).take(e - start) =~= s@.subrange(
        start as int,
        e as int,
    ));
    Some((start, e))
}

proof fn lemma_digits_value_nonneg(s: Seq<u8>)
    requires
        all_digits(s),
    ensures
        digits_value(s) >= 0,
    decreases s.len(),
{
    if s.len() > 0 {
        lemma_digits_value_nonneg(s.drop_last());
    }
}

proof fn lemma_digits_value_grows(d: Seq<u8>, i: int)
    requires
        all_digits(d),
        0 <= i <= d.len(),
    ensures
        digits_value(d.take(i)) <= digits_value(d),
    decreases d.len() - i,
{
    if i == d.len() {
        assert(d.take(i) =~= d);
    } else {
        lemma_digits_value_grows(d, i + 1);
        assert(d.take(i + 1).drop_last() =~= d.take(i));
        lemma_digits_value_nonneg(d.take(i));
    }
}

/// The unsigned decimal in `s[a..b)`, if it is one and fits a `usize`.
fn parse_unsigned(s: &[u8], a: usize, b: usize) -> (r: Option<usize>)
    requires
        a <= b <= s@.len(),
    ensures
        r is Some <==> unsigned_text(s@.subrange(a as int, b as int)) is Some && unsigned_text(
            s@.subrange(a as int, b as int),
        )->0 <= usize::MAX,
        r is Some ==> r->0 == unsigned_text(s@.subrange(a as int, b as int))->0,
{
    let ghost t = s@.subrange(a as int, b as int);
    let mut p = a;
    if p < b && s[p] == 43 {
        p += 1;
    }
    let ghost d = s@.subrange(p as int, b as int);
    assert(d =~= (if t.len() > 0 && t[0] == 43 {
        t.drop_first()
    } else {
        t
    }));
    if p == b {
        assert(d.len() == 0);
        assert(unsigned_text(t) is None);
        return None;
    }
    let start = p;
    let mut value: usize = 0;
    while p < b
        invariant
            start <= p <= b <= s@.len(),
            d == s@.subrange(start as int, b as int),
            t == s@.subrange(a as int, b as int),
            unsigned_text(t) == (if d.len() > 0 && all_digits(d) {
                Some(digits_value(d))
            } else {
                None
            }),
            all_digits(d.take(p - start)),
            value == digits_value(d.take(p - start)),
        decreases b - p,
    {
        let c = s[p];
        if c < 48 || c > 57 {
            assert(!is_digit(d[p - start]));
            return None;
        }
        let ghost before = d.take(p - start);
        assert(d.take(p - start + 1).drop_last() =~= before);
        assert(all_digits(d.take(p - start + 1))) by {
            assert forall|i: int| 0 <= i < p - start + 1 implies is_digit(
                #[trigger] d.take(p - start + 1)[i],
            ) by {
                if i < p - start {
                    assert(d.take(p - start + 1)[i] == before[i]);
                }
            }
        }
        let digit = (c - 48) as usize;
        assert(d.take(p - start + 1).last() == c);
        assert(digits_value(d.take(p - start + 1)) == value * 10 + digit);
        match value.checked_mul(10) {
            None => {
                proof {
                    lemma_no_fit(d, (p - start + 1) as int);
                }
                return None;
            },
            Some(tens) => match tens.checked_add(digit) {
                None => {
                    proof {
                        lemma_no_fit(d, (p - start + 1) as int);
                    }
                    return None;
                },
                Some(next) => {
                    value = next;
                },
            },
        }
        p += 1;
    }
    assert(d.take(p - start) =~= d);
    Some(value)
}

/// Once a prefix of the digits `d` is past `usize::MAX` the whole is too, or `d`
/// holds something other than digits.
proof fn lemma_no_fit(d: Seq<u8>, i: int)
    requires
        0 < i <= d.len(),
        all_digits(d.take(i)),
        digits_value(d.take(i)) > usize::MAX,
    ensures
        all_digits(d) ==> digits_value(d) > usize::MAX,
{
    if all_digits(d) {
        lemma_digits_value_grows(d, i);
    }
}

/// The zero-based vertex that the corner field `s[a..b)` names.
fn corner(s: &[u8], a: usize, b: usize) -> (r: Option<usize>)
    requires
        a <= b <= s@.len(),
    ensures
        match corner_index(s@.subrange(a as int, b as int)) {
            Some(v) => r == Some(v as usize),
            None => r is None,
        },
{
    let c = run_end(s, a, b, 47);
    let ghost text = s@.subrange(a as int, b as int);
    assert(text.take(run_len(text, 47) as int) =~= s@.subrange(a as int, c as int));
    assert(corner_index(text) == match unsigned_text(s@.subrange(a as int, c as int)) {
        Some(v) => if 1 <= v <= usize::MAX {
            Some(v - 1)
        } else {
            None
        },
        None => None,
    });
    let parsed = parse_unsigned(s, a, c);
    let ghost u = unsigned_text(s@.subrange(a as int, c as int));
    match parsed {
        Some(v) => {
            assert(u is Some && u->0 == v as int);
            if v == 0 {
                None
            } else {
                Some(v - 1)
            }
        },
        None => {
            assert(u is None || u->0 > usize::MAX);
            None
        },
    }
}

/// A unit type whose associated functions read OBJ mesh files.
#[derive(Debug, Clone, Copy, PartialEq, Eq, Structural)]
pub struct ObjLoader;

impl ObjLoader {
    /// Reads one line of an OBJ file for a face: `Ok(None)` when the line is not a
    /// face line, the zero-based triangle when it is one, and an error when it is a
    /// malformed one.
    pub fn parse_face(line: &[u8]) -> (r: Result<Option<Face>, ObjError>)
        ensures
            r == face_line(line@),
    {
        let head = nth_field(line, 32, 0);
        let (h0, h1) = match head {
            Some(b) => b,
            None => {
                return Ok(None);
            },
        };
        if !(h1 > h0 && h1 - h0 == 1 && line[h0] == 102) {
            assert(field(line@, 32, 0) != Some(seq![102u8])) by {
                if h1 == h0 + 1 {
                    assert(line@.subrange(h0 as int, h1 as int)[0] != seq![102u8][0]);
                } else {
                    assert(line@.subrange(h0 as int, h1 as int).len() != seq![102u8].len());
                }
            }
            return Ok(None);
        }
        assert(line@.subrange(h0 as int, h1 as int) =~= seq![102u8]);
        let f1 = nth_field(line, 32, 1);
        let f2 = nth_field(line, 32, 2);
        let f3 = nth_field(line, 32, 3);
        let ((a1, b1), (a2, b2), (a3, b3)) = match (f1, f2, f3) {
            (Some(x), Some(y), Some(z)) => (x, y, z),
            _ => {
                return Err(ObjError::MissingCorner);
            },
        };
        let c1 = corner(line, a1, b1);
        let c2 = corner(line, a2, b2);
        let c3 = corner(line, a3, b3);
        match (c1, c2, c3) {
            (Some(v0), Some(v1), Some(v2)) => Ok(Some(Face { v0, v1, v2 })),
            _ => Err(ObjError::BadIndex),
        }
    }
}

} // verus!
