//! The vertex references of an OBJ face: `v`, `v/vt` or `v/vt/vn`, each a
//! decimal index.
use vstd::prelude::*;

verus! {

pub open spec fn is_digit(b: u8) -> bool {
    48 <= b <= 57
}

pub open spec fn all_digits(s: Seq<u8>) -> bool {
    forall|i: int| 0 <= i < s.len() ==> is_digit(#[trigger] s[i])
}

/// The value of a string of decimal digits.
pub open spec fn decimal_value(s: Seq<u8>) -> int
    decreases s.len(),
{
    if s.len() == 0 {
        0
    } else {
        decimal_value(s.drop_last()) * 10 + (s.last() - 48)
    }
}

/// The number a field holds: a non-empty run of digits whose value fits
/// `usize`.
pub open spec fn field_number(s: Seq<u8>) -> Option<int> {
    if s.len() > 0 && all_digits(s) && decimal_value(s) <= usize::MAX {
        Some(decimal_value(s))
    } else {
        None
    }
}

/// Where the field that starts at `start` ends: at the next `/`, or at the
/// end of `t`.
pub open spec fn field_end(t: Seq<u8>, start: int) -> int
    decreases t.len() - start,
{
    if start >= t.len() {
        t.len() as int
    } else if t[start] == 47 {
        start
    } else {
        field_end(t, start + 1)
    }
}

/// An optional field: absent means none; a field that is present, even an
/// empty one, must hold a number.
pub open spec fn optional_field(t: Seq<u8>, present: bool, start: int) -> Option<Option<int>> {
    if !present {
        Some(None)
    } else {
        match field_number(t.subrange(start, field_end(t, start))) {
            Some(n) => Some(Some(n)),
            None => None,
        }
    }
}

/// The vertex, texture-coordinate and normal indices of a face token, or
/// none if the token is malformed. Fields after the third are ignored.
pub open spec fn vertex_attributes(t: Seq<u8>) -> Option<(int, Option<int>, Option<int>)> {
    let e0 = field_end(t, 0);
    let e1 = field_end(t, e0 + 1);
    let has1 = e0 < t.len();
    let has2 = has1 && e1 < t.len();
    match (field_number(t.subrange(0, e0)), optional_field(t, has1, e0 + 1), optional_field(t, has2, e1 + 1)) {
        (Some(v), Some(vt), Some(vn)) => Some((v, vt, vn)),
        _ => None,
    }
}

proof fn lemma_field_end_bounds(t: Seq<u8>, start: int)
    requires
        0 <= start <= t.len(),
    ensures
        start <= field_end(t, start) <= t.len(),
        forall|i: int| start <= i < field_end(t, start) ==> t[i] != 47,
        field_end(t, start) < t.len() ==> t[field_end(t, start)] == 47,
    decreases t.len() - start,
{
    if start < t.len() && t[start] != 47 {
        lemma_field_end_bounds(t, start + 1);
    }
}

/// The end of the field that starts at `start`.
fn find_field_end(t: &[u8], start: usize) -> (r: usize)
    requires
        start <= t@.len(),
    ensures
        r == field_end(t@, start as int),
{
    let mut i = start;
    while i < t.len() && t[i] != 47
        invariant
            start <= i <= t@.len(),
            field_end(t@, i as int) == field_end(t@, start as int),
        decreases t@.len() - i,
    {
        i = i + 1;
    }
    i
}

proof fn lemma_decimal_grows(s: Seq<u8>, i: int)
    requires
        all_digits(s),
        0 <= i <= s.len(),
    ensures
        decimal_value(s) >= decimal_value(s.subrange(0, i)),
        decimal_value(s.subrange(0, i)) >= 0,
    decreases s.len() - i,
{
    if i < s.len() {
        lemma_decimal_grows(s, i + 1);
        assert(s.subrange(0, i + 1).drop_last() =~= s.subrange(0, i));
        lemma_decimal_nonneg(s.subrange(0, i));
    } else {
        assert(s.subrange(0, i) =~= s);
        lemma_decimal_nonneg(s);
    }
}

proof fn lemma_decimal_nonneg(s: Seq<u8>)
    requires
        all_digits(s),
    ensures
        decimal_value(s) >= 0,
    decreases s.len(),
{
    if s.len() > 0 {
        assert(all_digits(s.drop_last()));
        lemma_decimal_nonneg(s.drop_last());
        assert(is_digit(s[s.len() - 1]));
    }
}

/// The number held by `t[start..end]`, if it is one (see `field_number`).
pub fn parse_decimal(t: &[u8], start: usize, end: usize) -> (r: Option<usize>)
    requires
        start <= end <= t@.len(),
    ensures
        r matches Some(v) ==> field_number(t@.subrange(start as int, end as int)) == Some(v as int),
        r is None ==> field_number(t@.subrange(start as int, end as int)) is None,
{
    let ghost s = t@.subrange(start as int, end as int);
    if start == end {
        return None;
    }
    let mut value: usize = 0;
    let mut i = start;
    while i < end
        invariant
            start <= i <= end <= t@.len(),
            s == t@.subrange(start as int, end as int),
            all_digits(s.subrange(0, i - start)),
            value == decimal_value(s.subrange(0, i - start)),
        decreases end - i,
    {
        let b = t[i];
        proof {
            assert(s.subrange(0, i - start + 1).drop_last() =~= s.subrange(0, i - start));
            assert(s[i - start] == b);
        }
        if b < 48 || b > 57 {
            assert(!all_digits(s));
            return None;
        }
        let grown = match value.checked_mul(10) {
            Some(m) => m.checked_add((b - 48) as usize),
            None => None,
        };
        match grown {
            Some(g) => {
                value = g;
            },
            None => {
                proof {
                    if all_digits(s) {
                        lemma_decimal_grows(s, i - start + 1);
                    }
                }
                return None;
            },
        }
        i = i + 1;
        proof {
            assert(all_digits(s.subrange(0, i - start)));
        }
    }
    proof {
        assert(s.subrange(0, i - start) =~= s);
    }
    Some(value)
}

/// Splits a face token into its vertex index and its optional texture and
/// normal indices; none for a malformed token.
pub fn get_vertex_attributes(token: &[u8]) -> (r: Option<(usize, Option<usize>, Option<usize>)>)
    ensures
        r matches Some((v, vt, vn)) ==> vertex_attributes(token@) == Some(
            (
                v as int,
                match vt {
                    Some(x) => Some(x as int),
                    None => None,
                },
                match vn {
                    Some(x) => Some(x as int),
                    None => None,
                },
            ),
        ),
        r is None ==> vertex_attributes(token@) is None,
{
    let t = token;
    proof {
        lemma_field_end_bounds(t@, 0);
    }
    let e0 = find_field_end(t, 0);
    let v = parse_decimal(t, 0, e0);
    let v = match v {
        Some(x) => x,
        None => return None,
    };
    let has1 = e0 < t.len();
    let s1 = if has1 { e0 + 1 } else { e0 };
    proof {
        lemma_field_end_bounds(t@, s1 as int);
    }
    let e1 = find_field_end(t, s1);
    let vt = if has1 {
        match parse_decimal(t, s1, e1) {
            Some(x) => Some(x),
            None => return None,
        }
    } else {
        None
    };
    let has2 = has1 && e1 < t.len();
    let s2 = if has2 { e1 + 1 } else { e1 };
    proof {
        lemma_field_end_bounds(t@, s2 as int);
    }
    let e2 = find_field_end(t, s2);
    let vn = if has2 {
        match parse_decimal(t, s2, e2) {
            Some(x) => Some(x),
            None => return None,
        }
    } else {
        None
    };
    Some((v, vt, vn))
}

} // verus!
